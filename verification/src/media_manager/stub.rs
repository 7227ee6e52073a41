use vstd::prelude::*;

use crate::bad_block_table::table::ChannelBadBlockTable;
use crate::config::BYTES_PER_PAGE;
use crate::device::address::{PhysicalBlockAddress, PhysicalPageAddress};
use crate::media_manager::media_manager::{MediaManager, MediaManagerError, PageContent};

verus! {

/// A medium on which every operation succeeds and every page reads as zeros.
pub struct MediaManagerStub;

impl MediaManagerStub {
    pub fn new() -> Self {
        MediaManagerStub {  }
    }
}

impl MediaManager for MediaManagerStub {
    /// Every erase succeeds.
    open spec fn erase_succeeds(pba: PhysicalBlockAddress) -> bool {
        true
    }

    /// No erase fails.
    open spec fn erase_fails(pba: PhysicalBlockAddress) -> bool {
        false
    }

    /// Every data page holds zeros.
    open spec fn page_holds(ppa: PhysicalPageAddress, content: PageContent) -> bool {
        forall|i: int| 0 <= i < BYTES_PER_PAGE ==> #[trigger] content@[i] == 0
    }

    /// Every program succeeds.
    open spec fn write_succeeds(ppa: PhysicalPageAddress) -> bool {
        true
    }

    /// Every page reads as zeros, which hold the table of channel 0 with every block good.
    open spec fn table_page_holds(ppa: PhysicalPageAddress, t: ChannelBadBlockTable) -> bool {
        t.is_new_table(0)
    }

    fn erase_block(_pba: &PhysicalBlockAddress) -> (r: Result<(), MediaManagerError>)
        ensures
            r is Ok,
    {
        Ok(())
    }

    fn read_page(_ppa: &PhysicalPageAddress) -> (r: Result<PageContent, MediaManagerError>)
        ensures
            r matches Ok(page) && forall|i: int| 0 <= i < BYTES_PER_PAGE ==> #[trigger] page@[i] == 0,
    {
        let page: PageContent = [0u8; BYTES_PER_PAGE];
        Ok(page)
    }

    /// A zeroed page holds the table of channel 0 with every block good.
    fn read_table_page(_ppa: &PhysicalPageAddress) -> (r: Result<ChannelBadBlockTable, MediaManagerError>)
        ensures
            r matches Ok(table) && table.is_new_table(0),
    {
        Ok(ChannelBadBlockTable::new(0))
    }

    fn write_page(_ppa: &PhysicalPageAddress) -> (r: Result<(), MediaManagerError>)
        ensures
            r is Ok,
    {
        Ok(())
    }
}

} // verus!
