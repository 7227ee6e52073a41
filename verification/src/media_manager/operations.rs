use vstd::prelude::*;

pub use crate::media_manager::media_manager::{
    MediaManager, MediaManagerError, PageContent, PhysicalBlockAddressError,
};

use crate::device::address::{PhysicalBlockAddress, PhysicalPageAddress};

verus! {

/// Access to the flash medium through a shared handle, implemented by the platform.
pub trait MediaOperations: Sync {
    fn erase_block(&self, pba: &PhysicalBlockAddress) -> Result<(), MediaManagerError>;

    fn write_page(&self, ppa: &PhysicalPageAddress) -> Result<(), MediaManagerError>;
}

} // verus!
