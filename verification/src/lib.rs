pub mod bad_block_table;
pub mod config;
pub mod device;
pub mod ftl;
pub mod gc;
pub mod logical_physical_address;
pub mod media_manager;
pub mod page_provisioner;
pub mod provisioner;
pub mod utils;

use vstd::prelude::*;

verus! {

/// The sum of `left` and `right`.
pub fn add(left: u64, right: u64) -> (sum: u64)
    requires
        left + right <= u64::MAX,
    ensures
        sum == left + right,
{
    left + right
}

pub struct MyStruct {
    x: i32,
}

} // verus!
