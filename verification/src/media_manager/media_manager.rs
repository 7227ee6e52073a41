use vstd::prelude::*;

use crate::bad_block_table::table::ChannelBadBlockTable;
use crate::config::BYTES_PER_PAGE;
use crate::device::address::{PhysicalBlockAddress, PhysicalPageAddress};

verus! {

/// The bytes of one flash page.
pub type PageContent = [u8; BYTES_PER_PAGE];

/// Access to the flash medium, implemented by the platform.
///
/// What the medium answers is outside this library, and callers treat every answer as
/// possible. Each method ties its answer to the address it was given, through a
/// description that the implementation gives of itself: which table or data each page
/// holds, and for which addresses it reports a successful erase or program. These
/// descriptions are left open by default, and then say nothing about the medium.
pub trait MediaManager {
    /// Whether, on this medium, the page at `ppa` holds the stored table `t`.
    spec fn table_page_holds(ppa: PhysicalPageAddress, t: ChannelBadBlockTable) -> bool;

    /// Whether this medium reports success for an erase of the block at `pba`.
    closed spec fn erase_succeeds(pba: PhysicalBlockAddress) -> bool {
        true
    }

    /// Whether this medium reports failure for an erase of the block at `pba`.
    closed spec fn erase_fails(pba: PhysicalBlockAddress) -> bool {
        true
    }

    /// Whether, on this medium, the data page at `ppa` holds `content`.
    closed spec fn page_holds(ppa: PhysicalPageAddress, content: PageContent) -> bool {
        true
    }

    /// Whether this medium reports success for programming the page at `ppa`.
    closed spec fn write_succeeds(ppa: PhysicalPageAddress) -> bool {
        true
    }

    /// Erases the block at `pba`; an error marks the block as unusable.
    fn erase_block(pba: &PhysicalBlockAddress) -> (r: Result<(), MediaManagerError>)
        ensures
            r is Ok ==> Self::erase_succeeds(*pba),
            r is Err ==> Self::erase_fails(*pba),
    ;

    /// Reads the data page at `ppa`.
    fn read_page(ppa: &PhysicalPageAddress) -> (r: Result<PageContent, MediaManagerError>)
        ensures
            r matches Ok(content) ==> Self::page_holds(*ppa, content),
    ;

    /// Reads the page at `ppa` as a stored channel bad block table.
    fn read_table_page(ppa: &PhysicalPageAddress) -> (r: Result<ChannelBadBlockTable, MediaManagerError>)
        ensures
            r matches Ok(t) ==> Self::table_page_holds(*ppa, t),
    ;

    /// Programs the page at `ppa`.
    fn write_page(ppa: &PhysicalPageAddress) -> (r: Result<(), MediaManagerError>)
        ensures
            r is Ok ==> Self::write_succeeds(*ppa),
    ;
}

#[derive(Debug, PartialEq, Eq, Structural, Clone, Copy)]
pub enum PhysicalBlockAddressError {
    Reserved,
    InvalidAddress,
    BadBlock,
}

#[derive(Debug, PartialEq, Eq, Structural, Clone, Copy)]
pub enum MediaManagerError {
    Write,
    Read,
    Erase,
}

} // verus!
