use ftl::bad_block_table::table::{BlockStatus, ChannelBadBlockTable};
use ftl::config;
use ftl::device::address::{PhysicalBlockAddress, PhysicalPageAddress};
use ftl::ftl::FTL;
use ftl::media_manager::operations::{MediaManager, MediaManagerError, PageContent};
use ftl::provisioner::provisioner::{
    Block, BlockWithPageInfo, ChannelProvisioner, Page, ProvisionError, Provisioner,
};

#[test]
fn new() {
    let prov = Provisioner::new();
    assert_eq!(prov.channel_provisioners.len(), config::N_CHANNELS)
}

#[test]
fn provision_block() {
    let mut prov = Provisioner::new();

    let res = prov.provision_block();
    assert_eq!(res, Err(ProvisionError::NoFreeBlock));

    let block = Block { id: 3, plane_id: 0 };
    let res = prov.channel_provisioners[0].luns[0].free.push(block);
    assert!(res.is_ok());

    let size = prov.channel_provisioners[0].luns[0].free.get_size();
    assert_eq!(size, 1);

    let res = prov.provision_block();
    assert_eq!(
        res,
        Ok(PhysicalBlockAddress { channel_id: 0, lun_id: 0, plane_id: 0, block_id: 3 })
    );

    let size = prov.channel_provisioners[0].luns[0].free.get_size();
    assert_eq!(size, 0);

    let res = prov.provision_block();
    assert_eq!(res, Err(ProvisionError::NoFreeBlock));
}

#[test]
fn provision_page() {
    let mut prov = Provisioner::new();

    let res = prov.provision_page();
    assert_eq!(res, Err(ProvisionError::NoFreePage));

    let block = Block { id: 3, plane_id: 0 };
    let res = prov.channel_provisioners[0].luns[0].free.push(block);
    assert!(res.is_ok());
    let size = prov.channel_provisioners[0].luns[0].free.get_size();
    assert_eq!(size, 1);

    let res = prov.provision_page();
    assert_eq!(
        res,
        Ok(PhysicalPageAddress { channel_id: 0, lun_id: 0, plane_id: 0, block_id: 3, page_id: 0 })
    );
    let size = prov.channel_provisioners[0].luns[0].free.get_size();
    assert_eq!(size, 0);
    let size = prov.channel_provisioners[0].luns[0].partially_used.get_size();
    assert_eq!(size, 1);
    let size = prov.channel_provisioners[0].luns[0].used.get_size();
    assert_eq!(size, 0);

    for i in 1..config::PAGES_PER_BLOCK {
        let size = prov.channel_provisioners[0].luns[0].partially_used.get_size();
        assert_eq!(size, 1);
        let res = prov.provision_page();
        assert_eq!(
            res,
            Ok(PhysicalPageAddress { channel_id: 0, lun_id: 0, plane_id: 0, block_id: 3, page_id: i })
        );
    }
    let size = prov.channel_provisioners[0].luns[0].partially_used.get_size();
    assert_eq!(size, 0);
    let size = prov.channel_provisioners[0].luns[0].used.get_size();
    assert_eq!(size, 1);
    let res = prov.provision_page();
    assert_eq!(res, Err(ProvisionError::NoFreePage));
}

#[test]
fn provision_page_with_partially_used_blocks() {
    let mut prov = Provisioner::new();

    let res = prov.provision_page();
    assert_eq!(res, Err(ProvisionError::NoFreePage));

    let block = BlockWithPageInfo { id: 3, plane_id: 0, pages: [Page::Free; config::PAGES_PER_BLOCK] };
    let res = prov.channel_provisioners[0].luns[0].partially_used.push(block);
    assert!(res.is_ok());
    let size = prov.channel_provisioners[0].luns[0].free.get_size();
    assert_eq!(size, 0);
    let size = prov.channel_provisioners[0].luns[0].partially_used.get_size();
    assert_eq!(size, 1);

    let res = prov.provision_page();
    assert_eq!(
        res,
        Ok(PhysicalPageAddress { channel_id: 0, lun_id: 0, plane_id: 0, block_id: 3, page_id: 0 })
    );
    let size = prov.channel_provisioners[0].luns[0].free.get_size();
    assert_eq!(size, 0);
    let size = prov.channel_provisioners[0].luns[0].partially_used.get_size();
    assert_eq!(size, 1);
    let size = prov.channel_provisioners[0].luns[0].used.get_size();
    assert_eq!(size, 0);

    for i in 1..config::PAGES_PER_BLOCK {
        let size = prov.channel_provisioners[0].luns[0].partially_used.get_size();
        assert_eq!(size, 1);
        let res = prov.provision_page();
        assert_eq!(
            res,
            Ok(PhysicalPageAddress { channel_id: 0, lun_id: 0, plane_id: 0, block_id: 3, page_id: i })
        );
    }
    let size = prov.channel_provisioners[0].luns[0].partially_used.get_size();
    assert_eq!(size, 0);
    let size = prov.channel_provisioners[0].luns[0].used.get_size();
    assert_eq!(size, 1);
    let res = prov.provision_page();
    assert_eq!(res, Err(ProvisionError::NoFreePage));
}

#[test]
fn provision_block_from_different_channels() {
    let mut prov = Provisioner::new();

    let res = prov.provision_block();
    assert_eq!(res, Err(ProvisionError::NoFreeBlock));

    let block = Block { id: 3, plane_id: 0 };
    let res = prov.channel_provisioners[0].luns[0].free.push(block);
    assert!(res.is_ok());
    let res = prov.channel_provisioners[2].luns[3].free.push(block);
    assert!(res.is_ok());

    let size = prov.channel_provisioners[0].luns[0].free.get_size();
    assert_eq!(size, 1);

    let res = prov.provision_block();
    assert!(res.is_ok());

    let res = prov.provision_block();
    assert!(res.is_ok());

    let size = prov.channel_provisioners[0].luns[0].free.get_size();
    assert_eq!(size, 0);

    let res = prov.provision_block();
    assert_eq!(res, Err(ProvisionError::NoFreeBlock));
}

#[test]
fn push_free_block() {
    let mut prov = Provisioner::new();

    let res = prov.provision_block();
    assert_eq!(res, Err(ProvisionError::NoFreeBlock));

    let pba = PhysicalBlockAddress { channel_id: 0, lun_id: 2, plane_id: 0, block_id: 3 };
    let res = prov.push_free_block(&pba);
    assert!(res.is_ok());

    let size = prov.channel_provisioners[0].luns[2].free.get_size();
    assert_eq!(size, 1);

    let res = prov.provision_block();
    assert!(res.is_ok());

    let size = prov.channel_provisioners[0].luns[2].free.get_size();
    assert_eq!(size, 0);

    let res = prov.provision_block();
    assert_eq!(res, Err(ProvisionError::NoFreeBlock));
}

#[test]
fn multiple_push_free_block() {
    let mut prov = Provisioner::new();

    let res = prov.provision_block();
    assert_eq!(res, Err(ProvisionError::NoFreeBlock));

    let pba = PhysicalBlockAddress { channel_id: 0, lun_id: 2, plane_id: 0, block_id: 3 };
    let res = prov.push_free_block(&pba);
    assert!(res.is_ok());

    let size = prov.channel_provisioners[0].luns[2].free.get_size();
    assert_eq!(size, 1);

    let pba = PhysicalBlockAddress { channel_id: 2, lun_id: 2, plane_id: 0, block_id: 3 };
    let res = prov.push_free_block(&pba);
    assert!(res.is_ok());

    let size = prov.channel_provisioners[2].luns[2].free.get_size();
    assert_eq!(size, 1);

    let res = prov.provision_block();
    assert!(res.is_ok());

    let res = prov.provision_block();
    assert!(res.is_ok());

    let res = prov.provision_block();
    assert_eq!(res, Err(ProvisionError::NoFreeBlock));
}

pub struct OkMediaManager {}

impl MediaManager for OkMediaManager {
    fn table_page_holds(ppa: PhysicalPageAddress, t: ChannelBadBlockTable) -> bool {
        Self::read_table_page(&ppa) == Ok(t)
    }

    fn erase_block(pba: &PhysicalBlockAddress) -> Result<(), MediaManagerError> {
        match pba {
            PhysicalBlockAddress { channel_id: 0, lun_id: 0, plane_id: 0, block_id: 2 } => {
                Err(MediaManagerError::Erase)
            }
            _ => Ok(()),
        }
    }

    fn read_page(_ppa: &PhysicalPageAddress) -> Result<PageContent, MediaManagerError> {
        Ok([0; config::BYTES_PER_PAGE])
    }

    fn read_table_page(ppa: &PhysicalPageAddress) -> Result<ChannelBadBlockTable, MediaManagerError> {
        match ppa {
            PhysicalPageAddress { channel_id: ch_id, lun_id: 0, plane_id: 0, block_id: 0, page_id: 0 } => {
                let mut ch_bbt = ChannelBadBlockTable::new(*ch_id);
                ch_bbt.luns[0].planes[0].blocks[1] = BlockStatus::Bad;
                Ok(ch_bbt)
            }
            _ => Ok(ChannelBadBlockTable::new(0)),
        }
    }

    fn write_page(_ppa: &PhysicalPageAddress) -> Result<(), MediaManagerError> {
        Ok(())
    }
}

#[test]
fn ftl_factory_init_then_provision() {
    let mut ftl = FTL::<OkMediaManager>::new();
    assert!(ftl.provisioner.provision_block().is_err());
    assert!(ftl.provisioner.provision_page().is_err());
    assert!(ftl.init().is_ok());
    assert!(ftl.provisioner.provision_block().is_ok());
    assert!(ftl.provisioner.provision_page().is_ok());
}

#[test]
fn block_request_names_granting_lun_and_moves_block_to_used() {
    let mut cp = ChannelProvisioner::new(5);
    let _ = cp.luns[2].free.push(Block { id: 9, plane_id: 0 });
    let res = cp.provision_block();
    assert_eq!(res, Ok(PhysicalBlockAddress { channel_id: 5, lun_id: 2, plane_id: 0, block_id: 9 }));
    assert_eq!(cp.last_lun_picked, 2);
    assert_eq!(cp.luns[2].free.get_size(), 0);
    assert_eq!(cp.luns[2].used.pop(), Some(Block { id: 9, plane_id: 0 }));
}

#[test]
fn block_request_with_full_used_list_loses_block() {
    let mut cp = ChannelProvisioner::new(1);
    for i in 0..config::BLOCKS_PER_LUN {
        assert_eq!(cp.luns[1].used.push(Block { id: i, plane_id: 0 }), Ok(()));
    }
    let _ = cp.luns[1].free.push(Block { id: 4, plane_id: 0 });
    let res = cp.provision_block();
    assert_eq!(res, Err(ProvisionError::BlockErr("Could not push block to used.")));
    assert_eq!(cp.luns[1].free.get_size(), 0);
    assert_eq!(cp.luns[1].used.get_size(), config::BLOCKS_PER_LUN);
    assert_eq!(cp.last_lun_picked, 0);
}

#[test]
fn page_request_drops_block_without_free_page() {
    let mut cp = ChannelProvisioner::new(0);
    let full = BlockWithPageInfo { id: 7, plane_id: 0, pages: [Page::InUse; config::PAGES_PER_BLOCK] };
    let _ = cp.luns[1].partially_used.push(full);
    let _ = cp.luns[2].free.push(Block { id: 8, plane_id: 0 });
    let res = cp.provision_page();
    assert_eq!(
        res,
        Ok(PhysicalPageAddress { channel_id: 0, lun_id: 2, plane_id: 0, block_id: 8, page_id: 0 })
    );
    assert_eq!(cp.luns[1].partially_used.get_size(), 0);
    assert_eq!(cp.luns[2].partially_used.get_size(), 1);
    assert_eq!(cp.last_lun_picked, 2);
}

#[test]
fn page_request_takes_first_free_page() {
    let mut cp = ChannelProvisioner::new(3);
    let mut pages = [Page::InUse; config::PAGES_PER_BLOCK];
    pages[5] = Page::Free;
    pages[9] = Page::Free;
    let _ = cp.luns[1].partially_used.push(BlockWithPageInfo { id: 2, plane_id: 0, pages });
    let res = cp.provision_page();
    assert_eq!(
        res,
        Ok(PhysicalPageAddress { channel_id: 3, lun_id: 1, plane_id: 0, block_id: 2, page_id: 5 })
    );
    let res = cp.provision_page();
    assert_eq!(
        res,
        Ok(PhysicalPageAddress { channel_id: 3, lun_id: 1, plane_id: 0, block_id: 2, page_id: 9 })
    );
    // Page 9 was the last free page: the block is now used.
    assert_eq!(cp.luns[1].partially_used.get_size(), 0);
    assert_eq!(cp.luns[1].used.get_size(), 1);
    assert_eq!(cp.provision_page(), Err(ProvisionError::NoFreePage));
}

#[test]
fn last_page_moves_block_to_used() {
    let mut cp = ChannelProvisioner::new(3);
    let mut pages = [Page::InUse; config::PAGES_PER_BLOCK];
    pages[63] = Page::Free;
    let _ = cp.luns[1].partially_used.push(BlockWithPageInfo { id: 2, plane_id: 0, pages });
    assert_eq!(
        cp.provision_page(),
        Ok(PhysicalPageAddress { channel_id: 3, lun_id: 1, plane_id: 0, block_id: 2, page_id: 63 })
    );
    assert_eq!(cp.luns[1].partially_used.get_size(), 0);
    assert_eq!(cp.luns[1].used.pop(), Some(Block { id: 2, plane_id: 0 }));
}

#[test]
fn fresh_block_page_names_its_lun() {
    let mut cp = ChannelProvisioner::new(5);
    assert_eq!(cp.luns[2].free.push(Block { id: 7, plane_id: 0 }), Ok(()));
    assert_eq!(
        cp.provision_page(),
        Ok(PhysicalPageAddress { channel_id: 5, lun_id: 2, plane_id: 0, block_id: 7, page_id: 0 })
    );
    assert_eq!(cp.last_lun_picked, 2);
    assert_eq!(cp.luns[2].partially_used.get_size(), 1);
    assert_eq!(
        cp.provision_page(),
        Ok(PhysicalPageAddress { channel_id: 5, lun_id: 2, plane_id: 0, block_id: 7, page_id: 1 })
    );
}

#[test]
fn only_free_page_zero_moves_block_to_used() {
    let mut cp = ChannelProvisioner::new(0);
    let mut pages = [Page::InUse; config::PAGES_PER_BLOCK];
    pages[0] = Page::Free;
    assert!(cp.luns[1].partially_used.push(BlockWithPageInfo { id: 5, plane_id: 0, pages }).is_ok());
    assert_eq!(
        cp.provision_page(),
        Ok(PhysicalPageAddress { channel_id: 0, lun_id: 1, plane_id: 0, block_id: 5, page_id: 0 })
    );
    assert_eq!(cp.luns[1].used.get_size(), 1);
    assert_eq!(cp.luns[1].partially_used.get_size(), 0);
}

#[test]
fn channels_are_visited_round_robin() {
    let mut prov = Provisioner::new();
    for c in 0..config::N_CHANNELS {
        let pba = PhysicalBlockAddress { channel_id: c, lun_id: 1, plane_id: 0, block_id: 10 + c };
        assert_eq!(prov.push_free_block(&pba), Ok(()));
    }
    let mut channels = Vec::new();
    for _ in 0..config::N_CHANNELS {
        let pba = prov.provision_block().unwrap();
        channels.push(pba.channel_id);
        assert_eq!(pba.block_id, 10 + pba.channel_id);
    }
    assert_eq!(channels, vec![1, 2, 3, 4, 5, 6, 7, 0]);
    assert_eq!(prov.provision_block(), Err(ProvisionError::NoFreeBlock));
}

#[test]
fn push_free_block_to_full_list_fails() {
    let mut prov = Provisioner::new();
    let pba = PhysicalBlockAddress { channel_id: 4, lun_id: 3, plane_id: 0, block_id: 1 };
    for _ in 0..config::BLOCKS_PER_LUN {
        assert!(prov.push_free_block(&pba).is_ok());
    }
    assert!(prov.push_free_block(&pba).is_err());
    assert_eq!(prov.channel_provisioners[4].luns[3].free.get_size(), config::BLOCKS_PER_LUN);
}

#[test]
fn consecutive_blocks_come_from_different_luns() {
    let mut cp = ChannelProvisioner::new(2);
    let _ = cp.luns[1].free.push(Block { id: 3, plane_id: 0 });
    let _ = cp.luns[1].free.push(Block { id: 4, plane_id: 0 });
    let _ = cp.luns[3].free.push(Block { id: 5, plane_id: 0 });
    let first = cp.provision_block().unwrap();
    let second = cp.provision_block().unwrap();
    assert_eq!(first.lun_id, 1);
    assert_eq!(second.lun_id, 3);
    // Only LUN 1 has a free block left, so it serves the next request too.
    let third = cp.provision_block().unwrap();
    assert_eq!(third, PhysicalBlockAddress { channel_id: 2, lun_id: 1, plane_id: 0, block_id: 4 });
}

#[test]
fn written_pages_are_never_handed_out_again() {
    let mut cp = ChannelProvisioner::new(0);
    let _ = cp.luns[0].free.push(Block { id: 6, plane_id: 0 });
    let _ = cp.luns[3].free.push(Block { id: 7, plane_id: 0 });
    let mut seen = Vec::new();
    while let Ok(ppa) = cp.provision_page() {
        assert!(!seen.contains(&ppa));
        seen.push(ppa);
    }
    assert_eq!(seen.len(), 2 * config::PAGES_PER_BLOCK);
}
