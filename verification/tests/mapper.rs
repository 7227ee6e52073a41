use ftl::config::TOTAL_PAGES;
use ftl::device::address::{
    CompactPhysicalPageAddress, PhysicalBlockAddress, PhysicalPageAddress,
};
use ftl::logical_physical_address::mapper::L2pMapper;
use ftl::logical_physical_address::mapper::MappingError;

#[test]
fn initializes_new_mapper_of_crrect_size() {
    let mapper = L2pMapper::new();
    let result = mapper.get_size();
    assert_eq!(result, Ok(TOTAL_PAGES));
}

#[test]
fn physical_page_address_to_compact_physical_page_address() {
    let ppa = PhysicalPageAddress {
        channel_id: 1,
        lun_id: 1,
        plane_id: 0,
        block_id: 1,
        page_id: 1,
    };
    let cppa: CompactPhysicalPageAddress = ppa.into();
    assert_eq!(cppa, 16384 + 4096 + 64 + 1);
}

#[test]
fn compact_physical_page_address_to_physical_page_address() {
    let ppa = PhysicalPageAddress {
        channel_id: 1,
        lun_id: 1,
        plane_id: 0,
        block_id: 1,
        page_id: 1,
    };

    let cppa: CompactPhysicalPageAddress = ppa.into();
    let ppa_new: PhysicalPageAddress = cppa.into();

    assert_eq!(ppa, ppa_new);
}

#[test]
fn compact_address_extremes() {
    let first: PhysicalPageAddress = PhysicalPageAddress::from(0usize);
    assert_eq!(
        first,
        PhysicalPageAddress { channel_id: 0, lun_id: 0, plane_id: 0, block_id: 0, page_id: 0 }
    );
    let last: PhysicalPageAddress = PhysicalPageAddress::from(TOTAL_PAGES - 1);
    assert_eq!(
        last,
        PhysicalPageAddress { channel_id: 7, lun_id: 3, plane_id: 0, block_id: 63, page_id: 63 }
    );
    assert_eq!(last.into(), TOTAL_PAGES - 1);
}

#[test]
fn compact_round_trip_every_page() {
    for cppa in 0..TOTAL_PAGES {
        let ppa = PhysicalPageAddress::from(cppa);
        assert!(ppa.channel_id < 8 && ppa.lun_id < 4 && ppa.plane_id < 1);
        assert!(ppa.block_id < 64 && ppa.page_id < 64);
        assert_eq!(ppa.into(), cppa);
    }
}

#[test]
fn reserved_addresses() {
    let ppa = PhysicalPageAddress { channel_id: 3, lun_id: 2, plane_id: 0, block_id: 0, page_id: 9 };
    assert!(ppa.is_reserved());
    let ppa = PhysicalPageAddress { channel_id: 3, lun_id: 2, plane_id: 0, block_id: 1, page_id: 0 };
    assert!(!ppa.is_reserved());
    let pba = PhysicalBlockAddress { channel_id: 0, lun_id: 0, plane_id: 0, block_id: 0 };
    assert!(pba.is_reserved());
    let pba = PhysicalBlockAddress { channel_id: 0, lun_id: 0, plane_id: 0, block_id: 5 };
    assert!(!pba.is_reserved());
}

#[test]
fn set_address_pairs() {
    let mut mapper = L2pMapper::new();
    let lpa = 42;
    let ppa = PhysicalPageAddress {
        channel_id: 1,
        lun_id: 1,
        plane_id: 0,
        block_id: 1,
        page_id: 1,
    };
    let cppa: CompactPhysicalPageAddress = ppa.into();

    let _ = mapper.set_address_pairs(lpa, cppa);

    let cppa_out = mapper.get_physical_address(lpa).unwrap();
    let lpa_out = mapper.get_logical_address(cppa).unwrap();

    assert_eq!(cppa, cppa_out);
    assert_eq!(lpa, lpa_out);
}

#[test]
fn set_invalid_logical_addr() {
    let mut mapper = L2pMapper::new();
    let lpa_too_large = TOTAL_PAGES + 1;
    let ppa = PhysicalPageAddress {
        channel_id: 1,
        lun_id: 1,
        plane_id: 0,
        block_id: 1,
        page_id: 1,
    };
    let cppa: CompactPhysicalPageAddress = ppa.into();

    let res = mapper.set_address_pairs(lpa_too_large, cppa);

    assert_eq!(res, Err(MappingError::LogicalPageOutOfBounds));
}

#[test]
fn set_invalid_physical_addr() {
    let mut mapper = L2pMapper::new();
    let lpa = 1;

    let wrong_cppa: CompactPhysicalPageAddress = usize::MAX;

    let res = mapper.set_address_pairs(lpa, wrong_cppa);

    assert_eq!(res, Err(MappingError::PhysicalPageOutOfBounds));
}

#[test]
fn boundary_addresses_map() {
    let mut mapper = L2pMapper::new();
    assert_eq!(mapper.set_address_pairs(TOTAL_PAGES, 0), Err(MappingError::LogicalPageOutOfBounds));
    assert_eq!(mapper.set_address_pairs(0, TOTAL_PAGES), Err(MappingError::PhysicalPageOutOfBounds));
    assert_eq!(mapper.get_physical_address(0), None);
    assert_eq!(mapper.set_address_pairs(TOTAL_PAGES - 1, TOTAL_PAGES - 1), Ok(()));
    assert_eq!(mapper.get_physical_address(TOTAL_PAGES - 1), Some(TOTAL_PAGES - 1));
    assert_eq!(mapper.get_logical_address(TOTAL_PAGES - 1), Some(TOTAL_PAGES - 1));
}

#[test]
fn rewriting_a_logical_page_replaces_its_mapping() {
    let mut mapper = L2pMapper::new();
    assert_eq!(mapper.set_address_pairs(5, 100), Ok(()));
    assert_eq!(mapper.set_address_pairs(5, 200), Ok(()));
    assert_eq!(mapper.get_physical_address(5), Some(200));
    assert_eq!(mapper.get_logical_address(200), Some(5));
    // The reverse entry of the first physical page is left as it was.
    assert_eq!(mapper.get_logical_address(100), Some(5));
    assert_eq!(mapper.get_physical_address(6), None);
}

#[test]
fn lookup_gives_latest_pairing_of_a_history() {
    let mut mapper = L2pMapper::new();
    assert_eq!(mapper.set_address_pairs(3, 10), Ok(()));
    assert_eq!(mapper.set_address_pairs(4, 11), Ok(()));
    assert_eq!(mapper.set_address_pairs(3, 12), Ok(()));
    // A refused pairing does not count.
    assert!(mapper.set_address_pairs(3, TOTAL_PAGES).is_err());
    assert_eq!(mapper.get_physical_address(3), Some(12));
    assert_eq!(mapper.get_physical_address(4), Some(11));
    assert_eq!(mapper.get_physical_address(5), None);
}
