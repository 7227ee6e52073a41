use vstd::prelude::*;

use crate::config::{
    BLOCKS_PER_PLANE, LUNS_PER_CHANNEL, N_CHANNELS, PAGES_PER_BLOCK, PLANES_PER_LUN, TOTAL_PAGES,
};

verus! {

/// The address of one page on the device.
#[derive(Clone, Copy, Debug, PartialEq, Eq, Structural)]
pub struct PhysicalPageAddress {
    pub channel_id: usize,
    pub lun_id: usize,
    pub plane_id: usize,
    pub block_id: usize,
    pub page_id: usize,
}

/// The address of one erase block on the device.
#[derive(Clone, Copy, Debug, PartialEq, Eq, Structural)]
pub struct PhysicalBlockAddress {
    pub channel_id: usize,
    pub lun_id: usize,
    pub plane_id: usize,
    pub block_id: usize,
}

/// A page address packed into a single index in `0..TOTAL_PAGES`.
pub type CompactPhysicalPageAddress = usize;

/// A logical page index as seen by the host, in `0..TOTAL_PAGES`.
pub type LogicalPageAddress = usize;

/// Pages per channel: the stride of the channel component in a compact address.
pub open spec fn pages_per_channel() -> int {
    TOTAL_PAGES as int / N_CHANNELS as int
}

/// Pages per LUN: the stride of the LUN component in a compact address.
pub open spec fn pages_per_lun() -> int {
    PLANES_PER_LUN as int * BLOCKS_PER_PLANE as int * PAGES_PER_BLOCK as int
}

/// Pages per plane: the stride of the plane component in a compact address.
pub open spec fn pages_per_plane() -> int {
    BLOCKS_PER_PLANE as int * PAGES_PER_BLOCK as int
}

/// The numeric values of the geometry strides.
pub proof fn lemma_geometry()
    ensures
        TOTAL_PAGES == 131072,
        pages_per_channel() == 16384,
        pages_per_lun() == 4096,
        pages_per_plane() == 4096,
        PAGES_PER_BLOCK == 64,
        N_CHANNELS == 8,
        LUNS_PER_CHANNEL == 4,
        PLANES_PER_LUN == 1,
        BLOCKS_PER_PLANE == 64,
{
}

impl PhysicalPageAddress {
    /// Every component lies within the device geometry.
    pub open spec fn valid(self) -> bool {
        &&& self.channel_id < N_CHANNELS
        &&& self.lun_id < LUNS_PER_CHANNEL
        &&& self.plane_id < PLANES_PER_LUN
        &&& self.block_id < BLOCKS_PER_PLANE
        &&& self.page_id < PAGES_PER_BLOCK
    }

    /// The compact index of this address: its components read as digits of a mixed radix.
    pub open spec fn compact(self) -> int {
        self.channel_id * pages_per_channel() + self.lun_id * pages_per_lun() + self.plane_id
            * pages_per_plane() + self.block_id * PAGES_PER_BLOCK as int + self.page_id
    }

    /// The address whose components are the mixed-radix digits of `cppa`.
    pub open spec fn from_compact(cppa: int) -> PhysicalPageAddress {
        let remainder = cppa % pages_per_channel();
        let in_lun = remainder % pages_per_lun();
        let in_plane = in_lun % pages_per_plane();
        PhysicalPageAddress {
            channel_id: (cppa / pages_per_channel()) as usize,
            lun_id: (remainder / pages_per_lun()) as usize,
            plane_id: (in_lun / pages_per_plane()) as usize,
            block_id: (in_plane / PAGES_PER_BLOCK as int) as usize,
            page_id: (in_plane % PAGES_PER_BLOCK as int) as usize,
        }
    }

    /// Block 0 of every plane holds bad block table metadata and is reserved.
    pub fn is_reserved(&self) -> (r: bool)
        ensures
            r == (self.block_id == 0),
    {
        return self.block_id == 0;
    }

    /// Packs a valid address into its compact index.
    pub fn into(self) -> (cppa: CompactPhysicalPageAddress)
        requires
            self.valid(),
        ensures
            cppa == self.compact(),
            cppa < TOTAL_PAGES,
    {
        proof {
            lemma_geometry();
        }
        let pages_in_channel = TOTAL_PAGES / N_CHANNELS;
        assert(pages_in_channel == 16384);
        let channel_offset = self.channel_id * pages_in_channel;
        let lun_offset = self.lun_id * PLANES_PER_LUN * BLOCKS_PER_PLANE * PAGES_PER_BLOCK;
        let plane_offset = self.plane_id * BLOCKS_PER_PLANE * PAGES_PER_BLOCK;
        let block_offset = self.block_id * PAGES_PER_BLOCK;
        channel_offset + lun_offset + plane_offset + block_offset + self.page_id
    }
}

impl From<CompactPhysicalPageAddress> for PhysicalPageAddress {
    /// Unpacks a compact index into its components.
    fn from(cppa: CompactPhysicalPageAddress) -> (ppa: Self) {
        let channel = cppa / (TOTAL_PAGES / N_CHANNELS);
        let mut remainder = cppa % (TOTAL_PAGES / N_CHANNELS);
        let lun = remainder / (PLANES_PER_LUN * BLOCKS_PER_PLANE * PAGES_PER_BLOCK);
        remainder = remainder % (PLANES_PER_LUN * BLOCKS_PER_PLANE * PAGES_PER_BLOCK);
        let plane = remainder / (BLOCKS_PER_PLANE * PAGES_PER_BLOCK);
        remainder = remainder % (BLOCKS_PER_PLANE * PAGES_PER_BLOCK);
        let block = remainder / PAGES_PER_BLOCK;
        let page = remainder % PAGES_PER_BLOCK;
        PhysicalPageAddress {
            channel_id: channel,
            lun_id: lun,
            plane_id: plane,
            block_id: block,
            page_id: page,
        }
    }
}

impl vstd::std_specs::convert::FromSpecImpl<CompactPhysicalPageAddress> for PhysicalPageAddress {
    open spec fn obeys_from_spec() -> bool {
        true
    }

    open spec fn from_spec(cppa: CompactPhysicalPageAddress) -> Self {
        PhysicalPageAddress::from_compact(cppa as int)
    }
}

/// Unpacking an index below `TOTAL_PAGES` yields a valid address that packs back to it.
pub proof fn lemma_compact_unpack_pack(cppa: int)
    requires
        0 <= cppa < TOTAL_PAGES,
    ensures
        PhysicalPageAddress::from_compact(cppa).valid(),
        PhysicalPageAddress::from_compact(cppa).compact() == cppa,
{
    lemma_geometry();
    let remainder = cppa % 16384;
    let in_lun = remainder % 4096;
    assert(in_lun % 4096 == in_lun);
    assert(cppa == (cppa / 16384) * 16384 + remainder);
    assert(remainder == (remainder / 4096) * 4096 + in_lun);
    assert(in_lun == (in_lun / 64) * 64 + in_lun % 64);
    assert(remainder / 4096 < 4);
    assert(in_lun / 4096 == 0);
}

/// Packing a valid address and unpacking the index gives the address back.
pub proof fn lemma_compact_pack_unpack(ppa: PhysicalPageAddress)
    requires
        ppa.valid(),
    ensures
        PhysicalPageAddress::from_compact(ppa.compact()) == ppa,
{
    lemma_geometry();
    let c = ppa.compact();
    assert(c == ppa.channel_id * 16384 + ppa.lun_id * 4096 + ppa.block_id * 64 + ppa.page_id);
    assert(c / 16384 == ppa.channel_id);
    assert(c % 16384 == ppa.lun_id * 4096 + ppa.block_id * 64 + ppa.page_id);
    assert((c % 16384) / 4096 == ppa.lun_id);
    assert((c % 16384) % 4096 == ppa.block_id * 64 + ppa.page_id);
}

impl PhysicalBlockAddress {
    /// Block 0 of every plane holds bad block table metadata and is reserved.
    pub fn is_reserved(&self) -> (r: bool)
        ensures
            r == (self.block_id == 0),
    {
        return self.block_id == 0;
    }
}

} // verus!
