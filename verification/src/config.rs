use vstd::prelude::*;

verus! {

// Geometry of the flash device.
pub const N_CHANNELS: usize = 8;

pub const LUNS_PER_CHANNEL: usize = 4;

pub const PLANES_PER_LUN: usize = 1;

pub const BLOCKS_PER_PLANE: usize = 64;

pub const PAGES_PER_BLOCK: usize = 64;

pub const BYTES_PER_PAGE: usize = 4096;

// Quantities derived from the geometry.
pub const BLOCKS_PER_LUN: usize = BLOCKS_PER_PLANE * PLANES_PER_LUN;

pub const TOTAL_BLOCKS: usize = N_CHANNELS * LUNS_PER_CHANNEL * BLOCKS_PER_LUN;

pub const TOTAL_PAGES: usize = TOTAL_BLOCKS * PAGES_PER_BLOCK;

pub const TOTAL_BYTES: usize = N_CHANNELS * LUNS_PER_CHANNEL * PLANES_PER_LUN * BLOCKS_PER_LUN
    * PAGES_PER_BLOCK * BYTES_PER_PAGE;

} // verus!
