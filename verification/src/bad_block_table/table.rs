use vstd::prelude::*;

use crate::config::{BLOCKS_PER_PLANE, LUNS_PER_CHANNEL, N_CHANNELS, PAGES_PER_BLOCK, PLANES_PER_LUN};
use crate::device::address::{PhysicalBlockAddress, PhysicalPageAddress};
use crate::media_manager::media_manager::{MediaManager, MediaManagerError};

verus! {

/// The bad block tables of all channels, indexed by channel.
#[derive(PartialEq, Debug)]
pub struct BadBlockTable {
    pub channel_bad_block_tables: [ChannelBadBlockTable; N_CHANNELS],
}

/// The status of every block of one channel, with the position and version of the
/// table's last copy on the medium.
#[derive(Copy, Clone, PartialEq, Debug)]
pub struct ChannelBadBlockTable {
    pub luns: [LUN; LUNS_PER_CHANNEL],
    channel_id: usize,
    current_page: usize,
    version: usize,
}

#[derive(Copy, Clone, PartialEq, Debug)]
pub struct LUN {
    pub planes: [Plane; PLANES_PER_LUN],
}

#[derive(Copy, Clone, PartialEq, Debug)]
pub struct Plane {
    pub blocks: [BlockStatus; BLOCKS_PER_PLANE],
}

#[derive(Copy, Clone, PartialEq, Eq, Structural, Debug)]
pub enum BlockStatus {
    Good,
    Bad,
    Reserved,
}

#[derive(PartialEq, Eq, Structural, Debug, Clone, Copy)]
pub enum BadBlockTableError {
    FactoryInitTable,
    RestoreTable,
}

/// What the restore scan does after looking at one page of the table block.
#[derive(Copy, Clone, PartialEq, Debug)]
pub enum RestoreScan {
    /// Go on to the next page, with this as the newest version seen so far.
    Continue(usize),
    /// Stop: this table is the one to restore.
    Found(ChannelBadBlockTable),
    /// Stop: the last page of the table block has been looked at and no table is to be
    /// restored.
    NotFound,
}

/// The status factory initialisation may give block `block`: block 0 of a plane is
/// reserved, any other block is good or bad.
pub open spec fn factory_status_allowed(block: int, s: BlockStatus) -> bool {
    if block == 0 {
        s == BlockStatus::Reserved
    } else {
        s == BlockStatus::Good || s == BlockStatus::Bad
    }
}

impl Plane {
    /// Every block of the plane holds a status factory initialisation may give it.
    pub open spec fn factory_statuses(self) -> bool {
        forall|b: int| 0 <= b < BLOCKS_PER_PLANE ==> factory_status_allowed(b, #[trigger] self.blocks@[b])
    }
}

impl LUN {
    /// Every plane of the LUN holds factory statuses.
    pub open spec fn factory_statuses(self) -> bool {
        forall|p: int| 0 <= p < PLANES_PER_LUN ==> (#[trigger] self.planes@[p]).factory_statuses()
    }
}

/// The block status that the outcome of a factory erase stands for.
pub fn status_after_erase(erased: Result<(), MediaManagerError>) -> (s: BlockStatus)
    ensures
        erased is Ok ==> s == BlockStatus::Good,
        erased is Err ==> s == BlockStatus::Bad,
{
    match erased {
        Ok(()) => BlockStatus::Good,
        Err(_) => BlockStatus::Bad,
    }
}

/// The status a block gets at factory initialisation: reserved blocks are never
/// erased; any other block is good if the medium erases it and bad otherwise.
fn factory_init_get_block_status<MO: MediaManager>(pba: &PhysicalBlockAddress) -> (s: BlockStatus)
    ensures
        pba.block_id == 0 ==> s == BlockStatus::Reserved,
        pba.block_id != 0 ==> s == BlockStatus::Good || s == BlockStatus::Bad,
        pba.block_id != 0 && s == BlockStatus::Good ==> MO::erase_succeeds(*pba),
        pba.block_id != 0 && s == BlockStatus::Bad ==> MO::erase_fails(*pba),
{
    if pba.is_reserved() {
        return BlockStatus::Reserved;
    }
    status_after_erase(MO::erase_block(pba))
}

/// Block `block` of plane `plane` of LUN `lun` of channel `channel_id`.
pub open spec fn block_at(channel_id: usize, lun: int, plane: int, block: int) -> PhysicalBlockAddress {
    PhysicalBlockAddress {
        channel_id,
        lun_id: lun as usize,
        plane_id: plane as usize,
        block_id: block as usize,
    }
}

/// Every block of `t` other than the reserved block 0 holds the status that erasing it
/// on medium `MO` gave: good only if the medium reported the erase of that very block
/// successful, bad only if it reported it failed.
pub open spec fn statuses_from_erases<MO: MediaManager>(t: ChannelBadBlockTable) -> bool {
    forall|l: int, p: int, b: int|
        0 <= l < LUNS_PER_CHANNEL && 0 <= p < PLANES_PER_LUN && 1 <= b < BLOCKS_PER_PLANE ==> erase_gave::<MO>(
            block_at(t.channel_of() as usize, l, p, b),
            #[trigger] t.status(l, p, b),
        )
}

/// Status `s` of the block at `pba` is what erasing it on medium `MO` gave: good only if
/// the medium reported that erase successful, bad only if it reported it failed.
pub open spec fn erase_gave<MO: MediaManager>(pba: PhysicalBlockAddress, s: BlockStatus) -> bool {
    &&& s == BlockStatus::Good ==> MO::erase_succeeds(pba)
    &&& s == BlockStatus::Bad ==> MO::erase_fails(pba)
}

/// Page `page` of block 0 of LUN 0, plane 0 of channel `channel_id`, where the
/// channel's bad block table is kept.
pub open spec fn table_page(channel_id: usize, page: usize) -> PhysicalPageAddress {
    PhysicalPageAddress { channel_id, lun_id: 0, plane_id: 0, block_id: 0, page_id: page }
}

/// Some page of the table block of channel `channel_id` holds table `t` on medium `MO`.
pub open spec fn held_in_table_block<MO: MediaManager>(channel_id: usize, t: ChannelBadBlockTable) -> bool {
    exists|p: usize| p < PAGES_PER_BLOCK && MO::table_page_holds(#[trigger] table_page(channel_id, p), t)
}

/// The address of page `page` of block 0 of LUN 0, plane 0 of channel `channel_id`,
/// where the channel's bad block table is kept.
pub fn table_page_address(channel_id: usize, page: usize) -> (ppa: PhysicalPageAddress)
    ensures
        ppa == table_page(channel_id, page),
        ppa == (PhysicalPageAddress { channel_id, lun_id: 0, plane_id: 0, block_id: 0, page_id: page }),
{
    PhysicalPageAddress { channel_id, lun_id: 0, plane_id: 0, block_id: 0, page_id: page }
}

/// The decision of the restore scan on page `page` of the table block: a table that
/// is not newer than every table seen so far is the one restored; otherwise the scan
/// goes on, with the newest version raised by a newer table and kept when the page
/// could not be read, unless `page` is the last page of the block.
pub fn restore_scan_step(
    latest_version: usize,
    page: usize,
    read: Result<ChannelBadBlockTable, MediaManagerError>,
) -> (s: RestoreScan)
    ensures
        match read {
            Ok(table) => if table.version_of() <= latest_version {
                s == RestoreScan::Found(table)
            } else if page + 1 < PAGES_PER_BLOCK {
                s == RestoreScan::Continue(table.version_of() as usize)
            } else {
                s == RestoreScan::NotFound
            },
            Err(_) => if page + 1 < PAGES_PER_BLOCK {
                s == RestoreScan::Continue(latest_version)
            } else {
                s == RestoreScan::NotFound
            },
        },
{
    let last_page = page >= PAGES_PER_BLOCK - 1;
    match read {
        Ok(table_from_disk) => {
            if latest_version < table_from_disk.version {
                if last_page {
                    RestoreScan::NotFound
                } else {
                    RestoreScan::Continue(table_from_disk.version)
                }
            } else {
                RestoreScan::Found(table_from_disk)
            }
        },
        Err(_) => if last_page {
            RestoreScan::NotFound
        } else {
            RestoreScan::Continue(latest_version)
        },
    }
}

/// The outcome of factory initialisation, given what writing the table out gave.
pub fn factory_init_outcome(flushed: Result<(), MediaManagerError>) -> (r: Result<(), BadBlockTableError>)
    ensures
        flushed is Ok ==> r == Ok::<(), BadBlockTableError>(()),
        flushed is Err ==> r == Err::<(), BadBlockTableError>(BadBlockTableError::FactoryInitTable),
{
    match flushed {
        Ok(()) => Ok(()),
        Err(_) => Err(BadBlockTableError::FactoryInitTable),
    }
}

impl ChannelBadBlockTable {
    /// The recorded status of block `block` of plane `plane` of LUN `lun`.
    pub closed spec fn status(self, lun: int, plane: int, block: int) -> BlockStatus {
        self.luns@[lun].planes@[plane].blocks@[block]
    }

    pub closed spec fn channel_of(self) -> int {
        self.channel_id as int
    }

    pub closed spec fn current_page_of(self) -> int {
        self.current_page as int
    }

    pub closed spec fn version_of(self) -> int {
        self.version as int
    }

    /// A table as built for `channel_id`: every block good, nothing written yet.
    pub open spec fn is_new_table(self, channel_id: usize) -> bool {
        &&& self.channel_of() == channel_id
        &&& self.current_page_of() == 0
        &&& self.version_of() == 0
        &&& forall|l: int, p: int, b: int|
            0 <= l < LUNS_PER_CHANNEL && 0 <= p < PLANES_PER_LUN && 0 <= b < BLOCKS_PER_PLANE
                ==> #[trigger] self.status(l, p, b) == BlockStatus::Good
    }

    /// Every block holds the status factory initialisation gives it: block 0 of each
    /// plane is reserved, every other block is good or bad.
    pub closed spec fn factory_statuses(self) -> bool {
        forall|l: int| 0 <= l < LUNS_PER_CHANNEL ==> (#[trigger] self.luns@[l]).factory_statuses()
    }

    /// The table's copy on the medium moves to the next page of block 0, wrapping
    /// around, and its version goes up by one.
    pub open spec fn flushed_from(self, before: Self) -> bool {
        &&& self.channel_of() == before.channel_of()
        &&& self.current_page_of() == (before.current_page_of() + 1) % (PAGES_PER_BLOCK as int)
        &&& self.version_of() == before.version_of() + 1
    }

    /// Factory initialisation of `before` gave `self`.
    pub open spec fn factory_initialized_from(self, before: Self) -> bool {
        &&& self.factory_statuses()
        &&& self.flushed_from(before)
    }

    /// A table for `channel_id` with every block good.
    pub fn new(channel_id: usize) -> (t: Self)
        ensures
            t.is_new_table(channel_id),
    {
        let plane = Plane {
            blocks: vstd::array::array_fill_for_copy_types::<BlockStatus, BLOCKS_PER_PLANE>(BlockStatus::Good),
        };
        assert(forall|b: int| 0 <= b < BLOCKS_PER_PLANE ==> #[trigger] plane.blocks@[b] == BlockStatus::Good);
        let lun = LUN { planes: vstd::array::array_fill_for_copy_types::<Plane, PLANES_PER_LUN>(plane) };
        assert(forall|p: int| 0 <= p < PLANES_PER_LUN ==> #[trigger] lun.planes@[p] == plane);
        let t = ChannelBadBlockTable {
            luns: vstd::array::array_fill_for_copy_types::<LUN, LUNS_PER_CHANNEL>(lun),
            channel_id,
            current_page: 0,
            version: 0,
        };
        assert(forall|l: int| 0 <= l < LUNS_PER_CHANNEL ==> #[trigger] t.luns@[l] == lun);
        t
    }

    /// Sets every block's status by trying to erase it, then writes the table out.
    fn factory_init<MO: MediaManager>(&mut self) -> (r: Result<(), BadBlockTableError>)
        requires
            old(self).version_of() < usize::MAX,
            old(self).current_page_of() < usize::MAX,
        ensures
            final(self).factory_initialized_from(*old(self)),
            statuses_from_erases::<MO>(*final(self)),
            r is Ok ==> MO::write_succeeds(
                table_page(final(self).channel_of() as usize, final(self).current_page_of() as usize),
            ),
            r is Ok || r == Err::<(), BadBlockTableError>(BadBlockTableError::FactoryInitTable),
    {
        let mut lun_id: usize = 0;
        while lun_id < LUNS_PER_CHANNEL
            invariant
                lun_id <= LUNS_PER_CHANNEL,
                self.channel_id == old(self).channel_id,
                self.version == old(self).version,
                self.current_page == old(self).current_page,
                forall|l: int| 0 <= l < lun_id ==> (#[trigger] self.luns@[l]).factory_statuses(),
                forall|l: int, p: int, b: int|
                    0 <= l < lun_id && 0 <= p < PLANES_PER_LUN && 1 <= b < BLOCKS_PER_PLANE ==> erase_gave::<MO>(
                        block_at(self.channel_id, l, p, b),
                        #[trigger] self.luns@[l].planes@[p].blocks@[b],
                    ),
            decreases LUNS_PER_CHANNEL - lun_id,
        {
            let mut lun = self.luns[lun_id];
            let mut plane_id: usize = 0;
            while plane_id < PLANES_PER_LUN
                invariant
                    lun_id < LUNS_PER_CHANNEL,
                    plane_id <= PLANES_PER_LUN,
                    forall|p: int| 0 <= p < plane_id ==> (#[trigger] lun.planes@[p]).factory_statuses(),
                    forall|p: int, b: int|
                        0 <= p < plane_id && 1 <= b < BLOCKS_PER_PLANE ==> erase_gave::<MO>(
                            block_at(self.channel_id, lun_id as int, p, b),
                            #[trigger] lun.planes@[p].blocks@[b],
                        ),
                decreases PLANES_PER_LUN - plane_id,
            {
                let mut plane = lun.planes[plane_id];
                let mut block_id: usize = 0;
                while block_id < BLOCKS_PER_PLANE
                    invariant
                        lun_id < LUNS_PER_CHANNEL,
                        plane_id < PLANES_PER_LUN,
                        block_id <= BLOCKS_PER_PLANE,
                        forall|b: int| 0 <= b < block_id ==> factory_status_allowed(b, #[trigger] plane.blocks@[b]),
                        forall|b: int|
                            1 <= b < block_id ==> erase_gave::<MO>(
                                block_at(self.channel_id, lun_id as int, plane_id as int, b),
                                #[trigger] plane.blocks@[b],
                            ),
                    decreases BLOCKS_PER_PLANE - block_id,
                {
                    let pba = self.block_address(lun_id, plane_id, block_id);
                    let status = factory_init_get_block_status::<MO>(&pba);
                    plane.blocks[block_id] = status;
                    block_id = block_id + 1;
                }
                lun.planes[plane_id] = plane;
                plane_id = plane_id + 1;
            }
            self.luns[lun_id] = lun;
            lun_id = lun_id + 1;
        }
        factory_init_outcome(self.flush::<MO>())
    }

    /// The address of block `block` of plane `plane` of LUN `lun` of this table's channel.
    pub fn block_address(&self, lun: usize, plane: usize, block: usize) -> (pba: PhysicalBlockAddress)
        ensures
            pba.channel_id == self.channel_of(),
            pba.lun_id == lun,
            pba.plane_id == plane,
            pba.block_id == block,
    {
        PhysicalBlockAddress { channel_id: self.channel_id, lun_id: lun, plane_id: plane, block_id: block }
    }

    /// Advances the table's position and version and writes the table page.
    fn flush<MO: MediaManager>(&mut self) -> (r: Result<(), MediaManagerError>)
        requires
            old(self).version_of() < usize::MAX,
            old(self).current_page_of() < usize::MAX,
        ensures
            final(self).flushed_from(*old(self)),
            final(self).luns == old(self).luns,
            final(self).channel_id == old(self).channel_id,
            r is Ok ==> MO::write_succeeds(table_page(final(self).channel_id, final(self).current_page)),
    {
        self.current_page = (self.current_page + 1) % PAGES_PER_BLOCK;
        self.version += 1;

        MO::write_page(&table_page_address(self.channel_id, self.current_page))
    }

    /// Scans block 0 of the channel page by page and restores the first table that is
    /// not newer than every table before it. A restored table is one that a page of the
    /// channel's table block holds; when no page holds a table, the restore fails.
    pub fn restore_state_from_boot<MO: MediaManager>(channel_id: usize) -> (r: Result<
        Self,
        BadBlockTableError,
    >)
        ensures
            r is Ok || r == Err::<Self, BadBlockTableError>(BadBlockTableError::RestoreTable),
            r matches Ok(t) ==> held_in_table_block::<MO>(channel_id, t),
    {
        let mut latest_version: usize = 0;
        let mut page: usize = 0;
        while page < PAGES_PER_BLOCK
            invariant
                page <= PAGES_PER_BLOCK,
            decreases PAGES_PER_BLOCK - page,
        {
            let read = MO::read_table_page(&table_page_address(channel_id, page));
            match restore_scan_step(latest_version, page, read) {
                RestoreScan::Continue(v) => {
                    latest_version = v;
                },
                RestoreScan::Found(table_from_disk) => {
                    return Ok(table_from_disk);
                },
                RestoreScan::NotFound => {
                    return Err(BadBlockTableError::RestoreTable);
                },
            }
            page = page + 1;
        }
        return Err(BadBlockTableError::RestoreTable);
    }

    /// Records status `s` for block `block` of plane `plane` of LUN `lun`, leaving every
    /// other block, the channel and the table's position and version as they were.
    pub fn set_block_status(&mut self, lun: usize, plane: usize, block: usize, s: BlockStatus)
        requires
            lun < LUNS_PER_CHANNEL,
            plane < PLANES_PER_LUN,
            block < BLOCKS_PER_PLANE,
        ensures
            final(self).status(lun as int, plane as int, block as int) == s,
            forall|l: int, p: int, b: int|
                0 <= l < LUNS_PER_CHANNEL && 0 <= p < PLANES_PER_LUN && 0 <= b < BLOCKS_PER_PLANE && !(l == lun
                    && p == plane && b == block) ==> #[trigger] final(self).status(l, p, b) == old(self).status(
                    l,
                    p,
                    b,
                ),
            final(self).channel_of() == old(self).channel_of(),
            final(self).current_page_of() == old(self).current_page_of(),
            final(self).version_of() == old(self).version_of(),
    {
        let mut l = self.luns[lun];
        let mut p = l.planes[plane];
        p.blocks[block] = s;
        l.planes[plane] = p;
        self.luns[lun] = l;
    }

    /// The status recorded for block `block` of plane `plane` of LUN `lun`, as stored.
    pub fn recorded_status(&self, lun: usize, plane: usize, block: usize) -> (s: BlockStatus)
        requires
            lun < LUNS_PER_CHANNEL,
            plane < PLANES_PER_LUN,
            block < BLOCKS_PER_PLANE,
        ensures
            s == self.status(lun as int, plane as int, block as int),
    {
        self.luns[lun].planes[plane].blocks[block]
    }

    /// The status of the block at `pba`; reserved blocks report `Reserved` whatever the
    /// table holds. The channel component of `pba` is not consulted.
    pub fn get_block_status(&self, pba: &PhysicalBlockAddress) -> (s: BlockStatus)
        requires
            pba.block_id == 0 || (pba.lun_id < LUNS_PER_CHANNEL && pba.plane_id < PLANES_PER_LUN
                && pba.block_id < BLOCKS_PER_PLANE),
        ensures
            s == if pba.block_id == 0 {
                BlockStatus::Reserved
            } else {
                self.status(pba.lun_id as int, pba.plane_id as int, pba.block_id as int)
            },
    {
        if pba.is_reserved() {
            return BlockStatus::Reserved;
        }
        let lun = self.luns[pba.lun_id];
        let plane = lun.planes[pba.plane_id];
        return plane.blocks[pba.block_id];
    }
}

impl BadBlockTable {
    /// Channels below `k` were factory-initialised from `before`; the others are as in `before`.
    pub open spec fn initialized_through(self, before: Self, k: int) -> bool {
        forall|c: int| 0 <= c < N_CHANNELS ==> {
            let now = #[trigger] self.channel_bad_block_tables@[c];
            let was = before.channel_bad_block_tables@[c];
            if c < k {
                now.factory_initialized_from(was)
            } else {
                now == was
            }
        }
    }

    /// Tables for all channels, each with every block good.
    pub fn new() -> (bbt: Self)
        ensures
            forall|c: int| 0 <= c < N_CHANNELS ==> #[trigger] bbt.channel_bad_block_tables@[c].is_new_table(c as usize),
    {
        BadBlockTable { channel_bad_block_tables: generate_channel_bbts() }
    }

    /// Factory-initialises the channels in order and stops at the first one that fails.
    pub fn factory_init<MO: MediaManager>(&mut self) -> (r: Result<(), BadBlockTableError>)
        requires
            forall|c: int| 0 <= c < N_CHANNELS ==> {
                &&& (#[trigger] old(self).channel_bad_block_tables@[c]).version_of() < usize::MAX
                &&& old(self).channel_bad_block_tables@[c].current_page_of() < usize::MAX
            },
        ensures
            r is Ok ==> final(self).initialized_through(*old(self), N_CHANNELS as int),
            r is Ok ==> forall|c: int|
                0 <= c < N_CHANNELS ==> statuses_from_erases::<MO>(#[trigger] final(self).channel_bad_block_tables@[c]),
            r is Err ==> r == Err::<(), BadBlockTableError>(BadBlockTableError::FactoryInitTable)
                && exists|k: int| 0 <= k < N_CHANNELS && #[trigger] final(self).initialized_through(*old(self), k + 1),
    {
        let mut ch: usize = 0;
        while ch < N_CHANNELS
            invariant
                ch <= N_CHANNELS,
                forall|c: int| 0 <= c < N_CHANNELS ==> {
                    &&& (#[trigger] old(self).channel_bad_block_tables@[c]).version_of() < usize::MAX
                    &&& old(self).channel_bad_block_tables@[c].current_page_of() < usize::MAX
                },
                self.initialized_through(*old(self), ch as int),
                forall|c: int| 0 <= c < ch ==> statuses_from_erases::<MO>(#[trigger] self.channel_bad_block_tables@[c]),
            decreases N_CHANNELS - ch,
        {
            let mut table = self.channel_bad_block_tables[ch];
            let res = table.factory_init::<MO>();
            self.channel_bad_block_tables[ch] = table;
            if let Err(e) = res {
                assert(self.initialized_through(*old(self), ch + 1));
                return Err(e);
            }
            ch = ch + 1;
        }
        Ok(())
    }

    /// Restores the table of every channel from the medium; fails if any channel's
    /// table cannot be restored. The table of channel `c` in a restored table is one
    /// that a page of channel `c`'s table block holds.
    pub fn restore_state_from_boot<MO: MediaManager>() -> (r: Result<Self, BadBlockTableError>)
        ensures
            r is Ok || r == Err::<Self, BadBlockTableError>(BadBlockTableError::RestoreTable),
            r matches Ok(b) ==> forall|c: int|
                0 <= c < N_CHANNELS ==> held_in_table_block::<MO>(c as usize, #[trigger] b.channel_bad_block_tables@[c]),
    {
        let mut channel_bad_block_tables = [ChannelBadBlockTable::new(0); N_CHANNELS];
        let mut ch_id: usize = 0;
        while ch_id < N_CHANNELS
            invariant
                ch_id <= N_CHANNELS,
                forall|c: int|
                    0 <= c < ch_id ==> held_in_table_block::<MO>(c as usize, #[trigger] channel_bad_block_tables@[c]),
            decreases N_CHANNELS - ch_id,
        {
            let restored = ChannelBadBlockTable::restore_state_from_boot::<MO>(ch_id);
            let ghost before = channel_bad_block_tables;
            let placed = place_restored_table(&mut channel_bad_block_tables, ch_id, restored);
            if placed.is_err() {
                return Err(BadBlockTableError::RestoreTable);
            }
            assert forall|c: int| 0 <= c < ch_id + 1 implies held_in_table_block::<MO>(
                c as usize,
                #[trigger] channel_bad_block_tables@[c],
            ) by {
                if c < ch_id {
                    assert(channel_bad_block_tables@[c] == before@[c]);
                }
            }
            ch_id = ch_id + 1;
        }
        Ok(BadBlockTable { channel_bad_block_tables })
    }
}

/// Puts the outcome of restoring channel `c` into the tables being assembled: a
/// restored table goes into slot `c` and nothing else changes; a failed restore fails
/// the whole restore and leaves the tables as they were.
pub fn place_restored_table(
    tables: &mut [ChannelBadBlockTable; N_CHANNELS],
    c: usize,
    restored: Result<ChannelBadBlockTable, BadBlockTableError>,
) -> (r: Result<(), BadBlockTableError>)
    requires
        c < N_CHANNELS,
    ensures
        match restored {
            Ok(t) => r == Ok::<(), BadBlockTableError>(()) && final(tables)@ == old(tables)@.update(c as int, t),
            Err(_) => r == Err::<(), BadBlockTableError>(BadBlockTableError::RestoreTable) && final(tables)@ == old(
                tables,
            )@,
        },
{
    match restored {
        Ok(t) => {
            tables[c] = t;
            Ok(())
        },
        Err(_) => Err(BadBlockTableError::RestoreTable),
    }
}

/// After factory initialisation the status of every block other than block 0 follows
/// the medium's answer to erasing that very block: it is good exactly when the medium
/// reported the erase successful (and not failed), and bad exactly when it reported it
/// failed (and not successful).
pub proof fn lemma_factory_status_follows_erase<MO: MediaManager>(t: ChannelBadBlockTable, l: int, p: int, b: int)
    requires
        t.factory_statuses(),
        statuses_from_erases::<MO>(t),
        0 <= l < LUNS_PER_CHANNEL,
        0 <= p < PLANES_PER_LUN,
        1 <= b < BLOCKS_PER_PLANE,
    ensures
        ({
            let pba = block_at(t.channel_of() as usize, l, p, b);
            &&& t.status(l, p, b) == BlockStatus::Good || t.status(l, p, b) == BlockStatus::Bad
            &&& t.status(l, p, b) == BlockStatus::Good ==> MO::erase_succeeds(pba)
            &&& t.status(l, p, b) == BlockStatus::Bad ==> MO::erase_fails(pba)
            &&& MO::erase_succeeds(pba) && !MO::erase_fails(pba) ==> t.status(l, p, b) == BlockStatus::Good
            &&& MO::erase_fails(pba) && !MO::erase_succeeds(pba) ==> t.status(l, p, b) == BlockStatus::Bad
        }),
{
    assert(t.luns@[l].factory_statuses());
    assert(t.luns@[l].planes@[p].factory_statuses());
    assert(factory_status_allowed(b, t.luns@[l].planes@[p].blocks@[b]));
}

/// After factory initialisation a block recorded as good is never block 0, the
/// reserved metadata block.
pub proof fn lemma_factory_good_block_not_reserved(t: ChannelBadBlockTable, l: int, p: int, b: int)
    requires
        t.factory_statuses(),
        0 <= l < LUNS_PER_CHANNEL,
        0 <= p < PLANES_PER_LUN,
        0 <= b < BLOCKS_PER_PLANE,
        t.status(l, p, b) == BlockStatus::Good,
    ensures
        b != 0,
{
    assert(t.luns@[l].factory_statuses());
    assert(t.luns@[l].planes@[p].factory_statuses());
    assert(factory_status_allowed(b, t.luns@[l].planes@[p].blocks@[b]));
}

/// One table per channel, the table at index `i` being for channel `i`.
fn generate_channel_bbts() -> (arr: [ChannelBadBlockTable; N_CHANNELS])
    ensures
        forall|c: int| 0 <= c < N_CHANNELS ==> #[trigger] arr@[c].is_new_table(c as usize),
{
    let mut arr = [ChannelBadBlockTable::new(0); N_CHANNELS];
    let mut i: usize = 0;
    while i < N_CHANNELS
        invariant
            i <= N_CHANNELS,
            forall|c: int| 0 <= c < i ==> #[trigger] arr@[c].is_new_table(c as usize),
            forall|c: int| i <= c < N_CHANNELS ==> #[trigger] arr@[c].is_new_table(0),
        decreases N_CHANNELS - i,
    {
        arr[i] = ChannelBadBlockTable::new(i);
        i += 1;
    }
    return arr;
}

} // verus!
