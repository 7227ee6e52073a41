use ftl::bad_block_table::table::{
    factory_init_outcome, place_restored_table, restore_scan_step, status_after_erase, table_page_address, BadBlockTable,
    BadBlockTableError, BlockStatus, ChannelBadBlockTable, RestoreScan,
};
use ftl::config;
use ftl::device::address::{PhysicalBlockAddress, PhysicalPageAddress};
use ftl::media_manager::operations::{MediaManager, MediaManagerError, PageContent};

pub struct OkMediaManager {}

impl MediaManager for OkMediaManager {
    fn table_page_holds(ppa: PhysicalPageAddress, t: ChannelBadBlockTable) -> bool {
        Self::read_table_page(&ppa) == Ok(t)
    }

    fn erase_block(pba: &PhysicalBlockAddress) -> Result<(), MediaManagerError> {
        match pba {
            PhysicalBlockAddress { channel_id: 0, lun_id: 0, plane_id: 0, block_id: 2 } => {
                Err(MediaManagerError::Erase)
            }
            _ => Ok(()),
        }
    }

    fn read_page(_ppa: &PhysicalPageAddress) -> Result<PageContent, MediaManagerError> {
        Ok([0; config::BYTES_PER_PAGE])
    }

    fn read_table_page(ppa: &PhysicalPageAddress) -> Result<ChannelBadBlockTable, MediaManagerError> {
        match ppa {
            PhysicalPageAddress { channel_id: ch_id, lun_id: 0, plane_id: 0, block_id: 0, page_id: 0 } => {
                let mut ch_bbt = ChannelBadBlockTable::new(*ch_id);
                ch_bbt.luns[0].planes[0].blocks[1] = BlockStatus::Bad;
                Ok(ch_bbt)
            }
            // A page of zeros holds the table of channel 0 with every block good.
            _ => Ok(ChannelBadBlockTable::new(0)),
        }
    }

    fn write_page(_ppa: &PhysicalPageAddress) -> Result<(), MediaManagerError> {
        Ok(())
    }
}

pub struct ErrMediaManager {}

impl MediaManager for ErrMediaManager {
    fn table_page_holds(ppa: PhysicalPageAddress, t: ChannelBadBlockTable) -> bool {
        Self::read_table_page(&ppa) == Ok(t)
    }

    fn erase_block(_pba: &PhysicalBlockAddress) -> Result<(), MediaManagerError> {
        Err(MediaManagerError::Erase)
    }

    fn read_page(_ppa: &PhysicalPageAddress) -> Result<PageContent, MediaManagerError> {
        Err(MediaManagerError::Read)
    }

    fn read_table_page(_ppa: &PhysicalPageAddress) -> Result<ChannelBadBlockTable, MediaManagerError> {
        Err(MediaManagerError::Read)
    }

    fn write_page(_ppa: &PhysicalPageAddress) -> Result<(), MediaManagerError> {
        Err(MediaManagerError::Write)
    }
}

#[test]
fn factory_init() {
    let mut bbt = BadBlockTable::new();
    let res = bbt.factory_init::<OkMediaManager>();
    assert_eq!(res, Ok(()));

    let ch_bbt = bbt.channel_bad_block_tables[0];
    let pba = PhysicalBlockAddress { channel_id: 0, lun_id: 0, plane_id: 0, block_id: 2 };
    assert_eq!(ch_bbt.get_block_status(&pba), BlockStatus::Bad);

    let pba = PhysicalBlockAddress { channel_id: 0, lun_id: 2, plane_id: 0, block_id: 3 };
    assert_eq!(ch_bbt.get_block_status(&pba), BlockStatus::Good);
    let pba = PhysicalBlockAddress { channel_id: 0, lun_id: 0, plane_id: 0, block_id: 0 };
    assert_eq!(ch_bbt.get_block_status(&pba), BlockStatus::Reserved);

    let res = bbt.factory_init::<ErrMediaManager>();
    assert_eq!(res, Err(BadBlockTableError::FactoryInitTable));
}

#[test]
fn block_status() {
    let bbt = BadBlockTable::new();
    let mut ch_bbt = bbt.channel_bad_block_tables[0];
    let pba = PhysicalBlockAddress { channel_id: 0, lun_id: 2, plane_id: 0, block_id: 3 };
    assert_eq!(ch_bbt.get_block_status(&pba), BlockStatus::Good);

    ch_bbt.luns[2].planes[0].blocks[3] = BlockStatus::Bad;
    assert_eq!(ch_bbt.get_block_status(&pba), BlockStatus::Bad);

    ch_bbt.luns[2].planes[0].blocks[3] = BlockStatus::Reserved;
    assert_eq!(ch_bbt.get_block_status(&pba), BlockStatus::Reserved);
}

#[test]
fn bbt_block_reserved() {
    let bbt = BadBlockTable::new();
    let ch_bbt = bbt.channel_bad_block_tables[0];
    let pba = PhysicalBlockAddress { channel_id: 0, lun_id: 0, plane_id: 0, block_id: 0 };

    assert_eq!(ch_bbt.get_block_status(&pba), BlockStatus::Reserved);
}

#[test]
fn restore_state_from_boot() {
    let res = BadBlockTable::restore_state_from_boot::<OkMediaManager>();
    assert!(res.is_ok());

    let ch_bbt = res.unwrap().channel_bad_block_tables[0];
    let pba = PhysicalBlockAddress { channel_id: 0, lun_id: 0, plane_id: 0, block_id: 1 };
    assert_eq!(ch_bbt.get_block_status(&pba), BlockStatus::Bad);

    let pba = PhysicalBlockAddress { channel_id: 0, lun_id: 2, plane_id: 0, block_id: 3 };
    assert_eq!(ch_bbt.get_block_status(&pba), BlockStatus::Good);
    let pba = PhysicalBlockAddress { channel_id: 0, lun_id: 0, plane_id: 0, block_id: 0 };
    assert_eq!(ch_bbt.get_block_status(&pba), BlockStatus::Reserved);

    let res = BadBlockTable::restore_state_from_boot::<ErrMediaManager>();
    assert_eq!(res, Err(BadBlockTableError::RestoreTable));
}

#[test]
fn factory_init_statuses_of_whole_table() {
    let mut bbt = BadBlockTable::new();
    assert_eq!(bbt.factory_init::<OkMediaManager>(), Ok(()));
    for ch in 0..config::N_CHANNELS {
        let t = bbt.channel_bad_block_tables[ch];
        for lun in 0..config::LUNS_PER_CHANNEL {
            for block in 0..config::BLOCKS_PER_PLANE {
                let expected = if block == 0 {
                    BlockStatus::Reserved
                } else if ch == 0 && lun == 0 && block == 2 {
                    BlockStatus::Bad
                } else {
                    BlockStatus::Good
                };
                assert_eq!(t.recorded_status(lun, 0, block), expected);
            }
        }
    }
}

#[test]
fn factory_init_all_erases_failing_marks_every_block_bad() {
    let mut bbt = BadBlockTable::new();
    assert_eq!(bbt.factory_init::<ErrMediaManager>(), Err(BadBlockTableError::FactoryInitTable));
    // The first channel was processed before its table write failed; the others were not.
    let first = bbt.channel_bad_block_tables[0];
    assert_eq!(first.recorded_status(1, 0, 0), BlockStatus::Reserved);
    assert_eq!(first.recorded_status(1, 0, 7), BlockStatus::Bad);
    let second = bbt.channel_bad_block_tables[1];
    assert_eq!(second.recorded_status(1, 0, 7), BlockStatus::Good);
    assert_eq!(second.recorded_status(1, 0, 0), BlockStatus::Good);
}

#[test]
fn erase_outcome_gives_status() {
    assert_eq!(status_after_erase(Ok(())), BlockStatus::Good);
    assert_eq!(status_after_erase(Err(MediaManagerError::Erase)), BlockStatus::Bad);
}

#[test]
fn restore_scan_decisions() {
    let table = ChannelBadBlockTable::new(3);
    let mut bbt = BadBlockTable::new();
    assert_eq!(bbt.factory_init::<OkMediaManager>(), Ok(()));
    // Written once, this table has version 1.
    let newer = bbt.channel_bad_block_tables[3];
    // A page that cannot be read is skipped.
    assert_eq!(restore_scan_step(4, 0, Err(MediaManagerError::Read)), RestoreScan::Continue(4));
    // A newer table raises the newest version seen.
    assert_eq!(restore_scan_step(0, 5, Ok(newer)), RestoreScan::Continue(1));
    // A table that is not newer than the newest seen is the one restored.
    assert_eq!(restore_scan_step(0, 0, Ok(table)), RestoreScan::Found(table));
    assert_eq!(restore_scan_step(9, 3, Ok(table)), RestoreScan::Found(table));
    assert_eq!(restore_scan_step(1, 63, Ok(newer)), RestoreScan::Found(newer));
    // On the last page of the block the scan ends without a table.
    assert_eq!(restore_scan_step(4, 63, Err(MediaManagerError::Read)), RestoreScan::NotFound);
    assert_eq!(restore_scan_step(0, 63, Ok(newer)), RestoreScan::NotFound);
}

#[test]
fn table_pages_lie_in_block_zero_of_the_channel() {
    assert_eq!(
        table_page_address(6, 17),
        PhysicalPageAddress { channel_id: 6, lun_id: 0, plane_id: 0, block_id: 0, page_id: 17 }
    );
}

#[test]
fn block_address_names_the_table_channel() {
    let t = ChannelBadBlockTable::new(5);
    assert_eq!(
        t.block_address(2, 0, 9),
        PhysicalBlockAddress { channel_id: 5, lun_id: 2, plane_id: 0, block_id: 9 }
    );
}

#[test]
fn factory_init_outcome_follows_table_write() {
    assert_eq!(factory_init_outcome(Ok(())), Ok(()));
    assert_eq!(factory_init_outcome(Err(MediaManagerError::Write)), Err(BadBlockTableError::FactoryInitTable));
}

#[test]
fn restore_picks_first_page_of_any_channel() {
    let res = ChannelBadBlockTable::restore_state_from_boot::<OkMediaManager>(5);
    let t = res.unwrap();
    assert_eq!(t.recorded_status(0, 0, 1), BlockStatus::Bad);
    assert_eq!(t.recorded_status(0, 0, 2), BlockStatus::Good);
}

#[test]
fn channel_restore_without_readable_table_fails() {
    assert_eq!(
        ChannelBadBlockTable::restore_state_from_boot::<ErrMediaManager>(3),
        Err(BadBlockTableError::RestoreTable)
    );
}

#[test]
fn restored_tables_go_to_their_channel_slot() {
    let mut tables = [ChannelBadBlockTable::new(0); config::N_CHANNELS];
    let mut t = ChannelBadBlockTable::new(4);
    t.set_block_status(1, 0, 9, BlockStatus::Bad);
    assert_eq!(place_restored_table(&mut tables, 4, Ok(t)), Ok(()));
    assert_eq!(tables[4], t);
    assert_eq!(tables[3], ChannelBadBlockTable::new(0));
    assert_eq!(
        place_restored_table(&mut tables, 5, Err(BadBlockTableError::RestoreTable)),
        Err(BadBlockTableError::RestoreTable)
    );
    assert_eq!(tables[5], ChannelBadBlockTable::new(0));
}

#[test]
fn set_block_status_changes_one_block() {
    let mut t = ChannelBadBlockTable::new(2);
    t.set_block_status(3, 0, 17, BlockStatus::Bad);
    assert_eq!(t.recorded_status(3, 0, 17), BlockStatus::Bad);
    assert_eq!(t.recorded_status(3, 0, 16), BlockStatus::Good);
    assert_eq!(t.recorded_status(2, 0, 17), BlockStatus::Good);
}
