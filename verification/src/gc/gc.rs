use vstd::prelude::*;

verus! {

/// Reclaims used blocks; it holds no state yet.
pub struct GarbageCollector {}

impl GarbageCollector {
    pub fn new() -> Self {
        GarbageCollector {  }
    }
}

} // verus!
