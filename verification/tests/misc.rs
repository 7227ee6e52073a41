use ftl::add;
use ftl::bad_block_table::table::ChannelBadBlockTable;
use ftl::config;
use ftl::gc::gc::GarbageCollector;
use ftl::page_provisioner::provisioner::{GlobalProvisoner, ProvisionError};
use ftl::utils::print::{transmitter_ready, UARTError};

#[test]
fn adds() {
    assert_eq!(add(2, 2), 4);
    assert_eq!(add(u64::MAX - 1, 1), u64::MAX);
}

#[test]
fn geometry() {
    assert_eq!(config::BLOCKS_PER_LUN, 64);
    assert_eq!(config::TOTAL_BLOCKS, 2048);
    assert_eq!(config::TOTAL_PAGES, 131072);
    assert_eq!(config::TOTAL_BYTES, 536870912);
}

#[test]
fn uart_readiness() {
    assert_eq!(transmitter_ready(0x60, 0x20), Ok(()));
    assert_eq!(transmitter_ready(0x40, 0x20), Err(UARTError::NonEmptyLSR));
    assert_eq!(transmitter_ready(0xff, 0x00), Err(UARTError::NonEmptyLSR));
}

#[test]
fn garbage_collector_builds() {
    let _gc = GarbageCollector::new();
}

#[test]
fn global_provisioner_with_empty_lists_grants_nothing() {
    let bbts = [ChannelBadBlockTable::new(0); config::N_CHANNELS];
    let mut p = GlobalProvisoner::new(bbts);
    for _ in 0..20 {
        assert_eq!(p.provision_block(), Err(ProvisionError::NoFreeBlock));
        assert_eq!(p.provison_page(), Err(ProvisionError::NoFreePage));
    }
}
