use vstd::prelude::*;

use crate::config::TOTAL_PAGES;
use crate::device::address::{CompactPhysicalPageAddress, LogicalPageAddress};

verus! {

/// The two directions of the logical/physical page mapping, one entry per page.
pub struct MappingTables {
    pub physical_to_logical: Seq<Option<LogicalPageAddress>>,
    pub logical_to_physical: Seq<Option<CompactPhysicalPageAddress>>,
}

impl MappingTables {
    /// The tables after recording that logical page `lpa` lives at physical page `cppa`.
    pub open spec fn set_pair(self, lpa: int, cppa: int) -> MappingTables {
        MappingTables {
            physical_to_logical: self.physical_to_logical.update(cppa, Some(lpa as usize)),
            logical_to_physical: self.logical_to_physical.update(lpa, Some(cppa as usize)),
        }
    }

    /// The tables after asking to pair logical page `lpa` with physical page `cppa`:
    /// a pairing with an address past the last page changes nothing.
    pub open spec fn pair_step(self, lpa: int, cppa: int) -> MappingTables {
        if 0 <= lpa < TOTAL_PAGES && 0 <= cppa < TOTAL_PAGES {
            self.set_pair(lpa, cppa)
        } else {
            self
        }
    }

    /// Both tables have one entry per page of the device.
    pub open spec fn sized(self) -> bool {
        &&& self.physical_to_logical.len() == TOTAL_PAGES
        &&& self.logical_to_physical.len() == TOTAL_PAGES
    }
}

/// Translates logical page addresses to physical ones and back.
pub struct L2pMapper {
    physical_to_logical: Vec<Option<LogicalPageAddress>>,
    logical_to_physical: Vec<Option<CompactPhysicalPageAddress>>,
}

#[derive(PartialEq, Eq, Structural, Debug, Clone, Copy)]
pub enum MappingError {
    ProvisionError,
    LogicalPageOutOfBounds,
    PhysicalPageOutOfBounds,
    SizeError,
}

impl View for L2pMapper {
    type V = MappingTables;

    closed spec fn view(&self) -> MappingTables {
        MappingTables {
            physical_to_logical: self.physical_to_logical@,
            logical_to_physical: self.logical_to_physical@,
        }
    }
}

impl L2pMapper {
    /// Both tables always have one entry per page of the device.
    #[verifier::type_invariant]
    pub(crate) open spec fn tables_sized(self) -> bool {
        self@.sized()
    }

    /// A mapper in which no page is mapped.
    pub fn new() -> (m: Self)
        ensures
            m@.sized(),
            forall|i: int| 0 <= i < TOTAL_PAGES ==> #[trigger] m@.physical_to_logical[i] is None,
            forall|i: int| 0 <= i < TOTAL_PAGES ==> #[trigger] m@.logical_to_physical[i] is None,
    {
        let mut physical_to_logical: Vec<Option<LogicalPageAddress>> = Vec::new();
        let mut logical_to_physical: Vec<Option<CompactPhysicalPageAddress>> = Vec::new();
        let mut i: usize = 0;
        while i < TOTAL_PAGES
            invariant
                i <= TOTAL_PAGES,
                physical_to_logical@.len() == i,
                logical_to_physical@.len() == i,
                forall|j: int| 0 <= j < i ==> #[trigger] physical_to_logical@[j] is None,
                forall|j: int| 0 <= j < i ==> #[trigger] logical_to_physical@[j] is None,
            decreases TOTAL_PAGES - i,
        {
            physical_to_logical.push(None);
            logical_to_physical.push(None);
            i = i + 1;
        }
        L2pMapper { physical_to_logical, logical_to_physical }
    }

    /// The logical page stored at physical page `cppa`, if any.
    pub fn get_logical_address(&self, cppa: CompactPhysicalPageAddress) -> (r: Option<
        LogicalPageAddress,
    >)
        requires
            cppa < TOTAL_PAGES,
        ensures
            r == self@.physical_to_logical[cppa as int],
    {
        proof {
            use_type_invariant(self);
        }
        self.physical_to_logical[cppa]
    }

    /// Records that logical page `lpa` is stored at physical page `cppa`, in both tables.
    /// Fails, changing nothing, when either address lies past the last page.
    pub fn set_address_pairs(&mut self, lpa: LogicalPageAddress, cppa: CompactPhysicalPageAddress) -> (r:
        Result<(), MappingError>)
        ensures
            old(self)@.sized(),
            final(self)@.sized(),
            final(self)@ == old(self)@.pair_step(lpa as int, cppa as int),
            lpa >= TOTAL_PAGES ==> r == Err::<(), MappingError>(MappingError::LogicalPageOutOfBounds)
                && final(self)@ == old(self)@,
            lpa < TOTAL_PAGES && cppa >= TOTAL_PAGES ==> r == Err::<(), MappingError>(
                MappingError::PhysicalPageOutOfBounds,
            ) && final(self)@ == old(self)@,
            lpa < TOTAL_PAGES && cppa < TOTAL_PAGES ==> r == Ok::<(), MappingError>(())
                && final(self)@ == old(self)@.set_pair(lpa as int, cppa as int),
    {
        proof {
            use_type_invariant(&*self);
        }
        if lpa > self.logical_to_physical.len() - 1 {
            Err(MappingError::LogicalPageOutOfBounds)
        } else if cppa > self.physical_to_logical.len() - 1 {
            Err(MappingError::PhysicalPageOutOfBounds)
        } else {
            self.logical_to_physical[lpa] = Some(cppa);
            self.physical_to_logical[cppa] = Some(lpa);
            Ok(())
        }
    }

    /// The physical page at which logical page `lpa` is stored, if any.
    pub fn get_physical_address(&self, lpa: LogicalPageAddress) -> (r: Option<
        CompactPhysicalPageAddress,
    >)
        requires
            lpa < TOTAL_PAGES,
        ensures
            r == self@.logical_to_physical[lpa as int],
    {
        proof {
            use_type_invariant(self);
        }
        self.logical_to_physical[lpa]
    }

    /// The number of pages the mapper covers.
    pub fn get_size(&self) -> (r: Result<usize, MappingError>)
        ensures
            r == Ok::<usize, MappingError>(TOTAL_PAGES),
            self@.sized(),
    {
        proof {
            use_type_invariant(self);
        }
        if self.logical_to_physical.len() != self.physical_to_logical.len() {
            return Err(MappingError::SizeError);
        } else {
            return Ok(self.logical_to_physical.len());
        }
    }
}

/// Read after write: once `lpa` and `cppa` are paired, looking up either one gives the
/// other, and the mappings of every other logical page are as they were.
pub proof fn lemma_read_after_write(tables: MappingTables, lpa: int, cppa: int, other: int)
    requires
        tables.sized(),
        0 <= lpa < TOTAL_PAGES,
        0 <= cppa < TOTAL_PAGES,
        0 <= other < TOTAL_PAGES,
    ensures
        tables.set_pair(lpa, cppa).sized(),
        tables.set_pair(lpa, cppa).logical_to_physical[lpa] == Some(cppa as usize),
        tables.set_pair(lpa, cppa).physical_to_logical[cppa] == Some(lpa as usize),
        other != lpa ==> tables.set_pair(lpa, cppa).logical_to_physical[other]
            == tables.logical_to_physical[other],
        other != cppa ==> tables.set_pair(lpa, cppa).physical_to_logical[other]
            == tables.physical_to_logical[other],
{
}

/// A later pairing of the same logical page replaces the earlier one.
pub proof fn lemma_last_write_wins(tables: MappingTables, lpa: int, first: int, second: int)
    requires
        tables.sized(),
        0 <= lpa < TOTAL_PAGES,
        0 <= first < TOTAL_PAGES,
        0 <= second < TOTAL_PAGES,
    ensures
        tables.set_pair(lpa, first).set_pair(lpa, second).logical_to_physical
            == tables.set_pair(lpa, second).logical_to_physical,
{
    assert(tables.set_pair(lpa, first).set_pair(lpa, second).logical_to_physical
        =~= tables.set_pair(lpa, second).logical_to_physical);
}

/// The tables after the pairings `pairs`, asked for in order.
pub open spec fn apply_pairs(tables: MappingTables, pairs: Seq<(int, int)>) -> MappingTables
    decreases pairs.len(),
{
    if pairs.len() == 0 {
        tables
    } else {
        apply_pairs(tables, pairs.drop_last()).pair_step(pairs.last().0, pairs.last().1)
    }
}

/// The physical page of the last pairing of `lpa` in `pairs` that was within range, if any.
pub open spec fn latest_pairing(pairs: Seq<(int, int)>, lpa: int) -> Option<int>
    decreases pairs.len(),
{
    if pairs.len() == 0 {
        None
    } else {
        let (l, c) = pairs.last();
        if l == lpa && 0 <= l < TOTAL_PAGES && 0 <= c < TOTAL_PAGES {
            Some(c)
        } else {
            latest_pairing(pairs.drop_last(), lpa)
        }
    }
}

/// A lookup after any sequence of pairings gives the physical page of the latest
/// pairing of that logical page, or what the tables held before if there was none;
/// the tables keep one entry per page throughout.
pub proof fn lemma_lookup_after_pairings(tables: MappingTables, pairs: Seq<(int, int)>, lpa: int)
    requires
        tables.sized(),
        0 <= lpa < TOTAL_PAGES,
    ensures
        apply_pairs(tables, pairs).sized(),
        apply_pairs(tables, pairs).logical_to_physical[lpa] == match latest_pairing(pairs, lpa) {
            Some(c) => Some(c as usize),
            None => tables.logical_to_physical[lpa],
        },
    decreases pairs.len(),
{
    if pairs.len() > 0 {
        lemma_lookup_after_pairings(tables, pairs.drop_last(), lpa);
    }
}

} // verus!
