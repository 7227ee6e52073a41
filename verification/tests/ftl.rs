use ftl::bad_block_table::table::{BlockStatus, ChannelBadBlockTable};
use ftl::config;
use ftl::device::address::{PhysicalBlockAddress, PhysicalPageAddress};
use ftl::ftl::{page_read_outcome, page_write_outcome, FtlErr, FTL};
use ftl::media_manager::operations::{MediaManager, MediaManagerError, PageContent};
use ftl::media_manager::stub::MediaManagerStub;

pub struct MockMediaManager {}

impl MediaManager for MockMediaManager {
    fn table_page_holds(ppa: PhysicalPageAddress, t: ChannelBadBlockTable) -> bool {
        Self::read_table_page(&ppa) == Ok(t)
    }

    fn erase_block(_pba: &PhysicalBlockAddress) -> Result<(), MediaManagerError> {
        Ok(())
    }

    fn read_page(_ppa: &PhysicalPageAddress) -> Result<PageContent, MediaManagerError> {
        Ok([0; config::BYTES_PER_PAGE])
    }

    fn read_table_page(_ppa: &PhysicalPageAddress) -> Result<ChannelBadBlockTable, MediaManagerError> {
        Ok(ChannelBadBlockTable::new(0))
    }

    fn write_page(_ppa: &PhysicalPageAddress) -> Result<(), MediaManagerError> {
        Ok(())
    }
}

pub struct FailingWrites {}

impl MediaManager for FailingWrites {
    fn table_page_holds(ppa: PhysicalPageAddress, t: ChannelBadBlockTable) -> bool {
        Self::read_table_page(&ppa) == Ok(t)
    }

    fn erase_block(_pba: &PhysicalBlockAddress) -> Result<(), MediaManagerError> {
        Ok(())
    }

    fn read_page(_ppa: &PhysicalPageAddress) -> Result<PageContent, MediaManagerError> {
        Err(MediaManagerError::Read)
    }

    fn read_table_page(_ppa: &PhysicalPageAddress) -> Result<ChannelBadBlockTable, MediaManagerError> {
        Err(MediaManagerError::Read)
    }

    fn write_page(_ppa: &PhysicalPageAddress) -> Result<(), MediaManagerError> {
        Err(MediaManagerError::Write)
    }
}

#[test]
fn ftl() {
    let mut ftl: FTL<MockMediaManager> = FTL::new();
    let _ = ftl.init();

    for lpa in 0..40 {
        let _ = ftl.write_page(lpa);
    }
}

#[test]
fn write_then_read_maps_logical_page() {
    let mut ftl: FTL<MockMediaManager> = FTL::new();
    assert!(ftl.init().is_ok());
    assert!(matches!(ftl.read_page(7), Err(FtlErr::ReadPage("Mapping error!"))));
    assert!(ftl.write_page(7).is_ok());
    let cppa = ftl.l2p_map.get_physical_address(7).unwrap();
    assert_eq!(ftl.l2p_map.get_logical_address(cppa), Some(7));
    let content = ftl.read_page(7).unwrap();
    assert!(content.iter().all(|b| *b == 0));
}

#[test]
fn successive_writes_go_to_different_pages() {
    let mut ftl: FTL<MockMediaManager> = FTL::new();
    assert!(ftl.init().is_ok());
    let mut seen = Vec::new();
    for lpa in 0..100 {
        assert!(ftl.write_page(lpa).is_ok());
        let cppa = ftl.l2p_map.get_physical_address(lpa).unwrap();
        assert!(!seen.contains(&cppa));
        let ppa = PhysicalPageAddress::from(cppa);
        assert_ne!(ppa.block_id, 0);
        seen.push(cppa);
    }
}

#[test]
fn write_out_of_range_is_mapping_error() {
    let mut ftl: FTL<MockMediaManager> = FTL::new();
    assert!(ftl.init().is_ok());
    assert!(matches!(ftl.write_page(config::TOTAL_PAGES), Err(FtlErr::WritePage("Mapping error"))));
}

#[test]
fn write_without_free_blocks_is_provision_error() {
    let mut ftl: FTL<MockMediaManager> = FTL::new();
    assert!(matches!(ftl.write_page(0), Err(FtlErr::WritePage("Provision error!"))));
}

#[test]
fn medium_failures_are_reported() {
    let mut ftl: FTL<FailingWrites> = FTL::new();
    // The bad block table cannot be written out.
    assert!(matches!(ftl.init(), Err(FtlErr::Init("Bad block table factory init error!"))));
}

#[test]
fn init_twice_overflows_free_lists() {
    let mut ftl: FTL<MockMediaManager> = FTL::new();
    assert!(ftl.init().is_ok());
    assert_eq!(ftl.provisioner.channel_provisioners[3].luns[1].free.get_size(), 63);
    assert!(matches!(ftl.init(), Err(FtlErr::Init("Could not push to free list in factory init"))));
}

#[test]
fn init_puts_only_good_blocks_on_free_lists() {
    let mut ftl: FTL<MockMediaManager> = FTL::new();
    assert!(ftl.init().is_ok());
    for c in 0..config::N_CHANNELS {
        for l in 0..config::LUNS_PER_CHANNEL {
            let mut free = ftl.provisioner.channel_provisioners[c].luns[l].free;
            let mut expected = 1;
            while let Some(b) = free.pop() {
                assert_eq!(b.id, expected);
                assert_eq!(ftl.bbt.channel_bad_block_tables[c].recorded_status(l, b.plane_id, b.id), BlockStatus::Good);
                expected += 1;
            }
            assert_eq!(expected, config::BLOCKS_PER_PLANE);
        }
    }
}

#[test]
fn outcome_of_medium_answers() {
    let page = [7u8; config::BYTES_PER_PAGE];
    assert!(matches!(page_read_outcome(Ok(page)), Ok(p) if p[0] == 7));
    assert!(matches!(page_read_outcome(Err(MediaManagerError::Read)), Err(FtlErr::ReadPage("Media manager error!"))));
    assert!(matches!(page_write_outcome(Ok(())), Ok(())));
    assert!(matches!(page_write_outcome(Err(MediaManagerError::Write)), Err(FtlErr::WritePage("Media manager error"))));
}

#[test]
fn stub_medium_reads_zero_pages() {
    let _stub = MediaManagerStub::new();
    let ppa = PhysicalPageAddress { channel_id: 1, lun_id: 1, plane_id: 0, block_id: 1, page_id: 1 };
    let page = MediaManagerStub::read_page(&ppa).unwrap();
    assert!(page.iter().all(|b| *b == 0));
    assert_eq!(MediaManagerStub::write_page(&ppa), Ok(()));
    let pba = PhysicalBlockAddress { channel_id: 1, lun_id: 1, plane_id: 0, block_id: 1 };
    assert_eq!(MediaManagerStub::erase_block(&pba), Ok(()));
    let table = MediaManagerStub::read_table_page(&ppa).unwrap();
    assert_eq!(table, ChannelBadBlockTable::new(0));
}

#[test]
fn stub_backed_ftl_writes_and_reads() {
    let mut ftl: FTL<MediaManagerStub> = FTL::new();
    assert!(ftl.init().is_ok());
    assert!(ftl.write_page(3).is_ok());
    assert!(ftl.read_page(3).is_ok());
}

#[test]
fn fill_free_lists_takes_every_good_block_once() {
    // A new table records every block as good, so each LUN's free list fills up.
    let mut ftl: FTL<MockMediaManager> = FTL::new();
    assert_eq!(ftl.fill_free_lists(), Ok(()));
    assert_eq!(ftl.provisioner.channel_provisioners[0].luns[0].free.get_size(), config::BLOCKS_PER_LUN);
    let mut free = ftl.provisioner.channel_provisioners[5].luns[2].free;
    for expected in 0..config::BLOCKS_PER_PLANE {
        assert_eq!(free.pop().unwrap().id, expected);
    }
    // The lists are full now: filling again fails.
    assert!(matches!(
        ftl.fill_free_lists(),
        Err(FtlErr::Init("Could not push to free list in factory init"))
    ));
}
