use core::marker::PhantomData;
use vstd::prelude::*;

use crate::bad_block_table::table::{
    block_at, lemma_factory_good_block_not_reserved, statuses_from_erases, BadBlockTable, BlockStatus,
    ChannelBadBlockTable,
};
use crate::config::{
    BLOCKS_PER_LUN, BLOCKS_PER_PLANE, LUNS_PER_CHANNEL, N_CHANNELS, PLANES_PER_LUN, TOTAL_PAGES,
};
use crate::device::address::{
    lemma_compact_pack_unpack, LogicalPageAddress, PhysicalBlockAddress, PhysicalPageAddress,
};
use crate::gc::gc::GarbageCollector;
use crate::logical_physical_address::mapper::{L2pMapper, MappingTables};
use crate::media_manager::media_manager::{MediaManager, MediaManagerError, PageContent};
use crate::provisioner::invariants::{
    lemma_page_scan_fresh, lemma_page_scan_good, lemma_page_scan_keeps_blocks, lemma_page_scan_wf,
};
use crate::provisioner::provisioner::{lemma_page_scan_in_range, Block, LunModel, Provisioner, ProvisionerModel};

verus! {

/// The flash translation layer: maps logical pages to physical pages on a medium `MM`,
/// keeping track of bad blocks and of which blocks and pages are free.
pub struct FTL<MM: MediaManager> {
    pub l2p_map: L2pMapper,
    pub provisioner: Provisioner,
    pub bbt: BadBlockTable,
    pub gc: GarbageCollector,
    phanthom_data: PhantomData<MM>,
}

#[derive(Debug, PartialEq)]
pub enum FtlErr<'a> {
    Init(&'a str),
    WritePage(&'a str),
    ReadPage(&'a str),
}

/// The blocks of LUN `l` that table `t` records as good, among the first `n` blocks of
/// the LUN taken plane by plane.
pub open spec fn good_blocks_upto(t: ChannelBadBlockTable, l: int, n: int) -> Seq<Block>
    decreases n,
{
    if n <= 0 {
        Seq::empty()
    } else {
        let k = n - 1;
        let blk = Block {
            id: (k % BLOCKS_PER_PLANE as int) as usize,
            plane_id: (k / BLOCKS_PER_PLANE as int) as usize,
        };
        let prev = good_blocks_upto(t, l, k);
        if t.status(l, blk.plane_id as int, blk.id as int) == BlockStatus::Good {
            prev.push(blk)
        } else {
            prev
        }
    }
}

/// The blocks of LUN `l` that table `t` records as good, plane by plane.
pub open spec fn good_blocks(t: ChannelBadBlockTable, l: int) -> Seq<Block> {
    good_blocks_upto(t, l, PLANES_PER_LUN * BLOCKS_PER_PLANE)
}

/// `now` is `before` with `added(c, l)` appended to the free list of LUN `l` of each
/// channel `c`, and nothing else changed.
pub open spec fn free_lists_extended(
    now: ProvisionerModel,
    before: ProvisionerModel,
    added: spec_fn(int, int) -> Seq<Block>,
) -> bool {
    &&& now.channels.len() == before.channels.len()
    &&& now.last_channel_provisioned == before.last_channel_provisioned
    &&& forall|c: int|
        0 <= c < N_CHANNELS ==> {
            &&& (#[trigger] now.channels[c]).last_lun_picked == before.channels[c].last_lun_picked
            &&& now.channels[c].channel_id == before.channels[c].channel_id
            &&& now.channels[c].luns.len() == before.channels[c].luns.len()
        }
    &&& forall|c: int, l: int|
        0 <= c < N_CHANNELS && 0 <= l < LUNS_PER_CHANNEL ==> #[trigger] now.channels[c].luns[l]
            == LunModel { free: before.channels[c].luns[l].free + added(c, l), ..before.channels[c].luns[l] }
}

/// Every LUN's free list has room for the good blocks of that LUN in `bbt`.
pub open spec fn good_blocks_fit(p: ProvisionerModel, bbt: BadBlockTable) -> bool {
    forall|c: int, l: int|
        0 <= c < N_CHANNELS && 0 <= l < LUNS_PER_CHANNEL ==> #[trigger] p.channels[c].luns[l].free.len()
            + good_blocks(bbt.channel_bad_block_tables@[c], l).len() <= BLOCKS_PER_LUN
}

/// What the blocks added so far by `init` are, when it is at block `n` of LUN `lun`
/// of channel `ch`.
pub open spec fn goods_added(bbt: BadBlockTable, c: int, l: int, ch: int, lun: int, n: int) -> Seq<
    Block,
> {
    if c < ch || (c == ch && l < lun) {
        good_blocks(bbt.channel_bad_block_tables@[c], l)
    } else if c == ch && l == lun {
        good_blocks_upto(bbt.channel_bad_block_tables@[c], l, n)
    } else {
        Seq::empty()
    }
}

/// Free lists extended by `f` are extended by any `g` that agrees with `f` on every LUN.
proof fn lemma_extension_congruent(
    now: ProvisionerModel,
    before: ProvisionerModel,
    f: spec_fn(int, int) -> Seq<Block>,
    g: spec_fn(int, int) -> Seq<Block>,
)
    requires
        free_lists_extended(now, before, f),
        forall|c: int, l: int| 0 <= c < N_CHANNELS && 0 <= l < LUNS_PER_CHANNEL ==> #[trigger] f(c, l) == g(c, l),
    ensures
        free_lists_extended(now, before, g),
{
    assert forall|c: int, l: int| 0 <= c < N_CHANNELS && 0 <= l < LUNS_PER_CHANNEL implies #[trigger] now.channels[c].luns[l]
        == LunModel { free: before.channels[c].luns[l].free + g(c, l), ..before.channels[c].luns[l] } by {
        assert(f(c, l) == g(c, l));
    }
}

/// Counting more blocks never finds fewer good ones.
proof fn lemma_good_blocks_upto_monotonic(t: ChannelBadBlockTable, l: int, n: int, m: int)
    requires
        0 <= n <= m,
    ensures
        good_blocks_upto(t, l, n).len() <= good_blocks_upto(t, l, m).len(),
    decreases m - n,
{
    if n < m {
        lemma_good_blocks_upto_monotonic(t, l, n, m - 1);
    }
}

/// Every block of `good_blocks_upto(t, l, n)` is recorded as good in `t` and lies in
/// the device geometry.
pub proof fn lemma_good_blocks_are_good(t: ChannelBadBlockTable, l: int, n: int)
    requires
        0 <= n <= PLANES_PER_LUN * BLOCKS_PER_PLANE,
    ensures
        forall|k: int|
            0 <= k < good_blocks_upto(t, l, n).len() ==> {
                let b = #[trigger] good_blocks_upto(t, l, n)[k];
                &&& b.plane_id < PLANES_PER_LUN
                &&& b.id < BLOCKS_PER_PLANE
                &&& t.status(l, b.plane_id as int, b.id as int) == BlockStatus::Good
            },
    decreases n,
{
    if n > 0 {
        lemma_good_blocks_are_good(t, l, n - 1);
    }
}

/// Blocks that factory initialisation recorded as good are never the reserved block 0:
/// a free list filled from a factory-initialised table holds no reserved block.
pub proof fn lemma_good_blocks_not_reserved(t: ChannelBadBlockTable, l: int)
    requires
        t.factory_statuses(),
        0 <= l < LUNS_PER_CHANNEL,
    ensures
        forall|k: int|
            0 <= k < good_blocks(t, l).len() ==> {
                let b = #[trigger] good_blocks(t, l)[k];
                &&& b.id != 0
                &&& b.plane_id < PLANES_PER_LUN
                &&& b.id < BLOCKS_PER_PLANE
                &&& t.status(l, b.plane_id as int, b.id as int) == BlockStatus::Good
            },
{
    lemma_good_blocks_are_good(t, l, PLANES_PER_LUN * BLOCKS_PER_PLANE);
    assert forall|k: int| 0 <= k < good_blocks(t, l).len() implies (#[trigger] good_blocks(t, l)[k]).id
        != 0 by {
        let b = good_blocks(t, l)[k];
        lemma_factory_good_block_not_reserved(t, l, b.plane_id as int, b.id as int);
    }
}

/// Free lists hold no bad or reserved block: when `init` fills empty free lists from
/// factory-initialised tables, every block on every free list is recorded as good and
/// is not the reserved block 0.
pub proof fn lemma_free_lists_hold_only_good_blocks(
    now: ProvisionerModel,
    before: ProvisionerModel,
    tables: BadBlockTable,
    c: int,
    l: int,
    k: int,
)
    requires
        free_lists_extended(now, before, |c: int, l: int| good_blocks(tables.channel_bad_block_tables@[c], l)),
        0 <= c < N_CHANNELS,
        0 <= l < LUNS_PER_CHANNEL,
        before.channels[c].luns[l].free.len() == 0,
        tables.channel_bad_block_tables@[c].factory_statuses(),
        0 <= k < now.channels[c].luns[l].free.len(),
    ensures
        ({
            let b = now.channels[c].luns[l].free[k];
            &&& b.id != 0
            &&& b.plane_id < PLANES_PER_LUN
            &&& b.id < BLOCKS_PER_PLANE
            &&& tables.channel_bad_block_tables@[c].status(l, b.plane_id as int, b.id as int) == BlockStatus::Good
        }),
{
    let t = tables.channel_bad_block_tables@[c];
    let f = |c: int, l: int| good_blocks(tables.channel_bad_block_tables@[c], l);
    assert(now.channels[c].luns[l] == LunModel {
        free: before.channels[c].luns[l].free + f(c, l),
        ..before.channels[c].luns[l]
    });
    assert(now.channels[c].luns[l].free =~= good_blocks(t, l));
    lemma_good_blocks_not_reserved(t, l);
    assert(good_blocks(t, l)[k] == now.channels[c].luns[l].free[k]);
}

/// The position of block `b` when the blocks of a LUN are taken plane by plane.
pub open spec fn block_rank(b: Block) -> int {
    b.plane_id * BLOCKS_PER_PLANE + b.id
}

/// The good blocks among the first `n` blocks of a LUN come in strictly increasing
/// rank, each below `n`; in particular none comes twice.
proof fn lemma_good_blocks_upto_ordered(t: ChannelBadBlockTable, l: int, n: int)
    requires
        0 <= n <= PLANES_PER_LUN * BLOCKS_PER_PLANE,
    ensures
        good_blocks_upto(t, l, n).len() <= n,
        forall|i: int|
            0 <= i < good_blocks_upto(t, l, n).len() ==> 0 <= block_rank(#[trigger] good_blocks_upto(t, l, n)[i])
                < n,
        forall|i: int, j: int|
            0 <= i < j < good_blocks_upto(t, l, n).len() ==> block_rank(good_blocks_upto(t, l, n)[i])
                < block_rank(good_blocks_upto(t, l, n)[j]),
    decreases n,
{
    if n > 0 {
        let k = n - 1;
        lemma_good_blocks_upto_ordered(t, l, k);
        vstd::arithmetic::div_mod::lemma_fundamental_div_mod(k, BLOCKS_PER_PLANE as int);
        let blk = Block {
            id: (k % BLOCKS_PER_PLANE as int) as usize,
            plane_id: (k / BLOCKS_PER_PLANE as int) as usize,
        };
        assert(block_rank(blk) == k) by (nonlinear_arith)
            requires
                0 <= k,
                k == BLOCKS_PER_PLANE * (k / BLOCKS_PER_PLANE as int) + k % BLOCKS_PER_PLANE as int,
                blk.id == k % BLOCKS_PER_PLANE as int,
                blk.plane_id == k / BLOCKS_PER_PLANE as int,
        ;
        let prev = good_blocks_upto(t, l, k);
        let cur = good_blocks_upto(t, l, n);
        if t.status(l, blk.plane_id as int, blk.id as int) == BlockStatus::Good {
            assert(cur == prev.push(blk));
            assert forall|i: int| 0 <= i < cur.len() implies 0 <= block_rank(#[trigger] cur[i]) < n by {
                if i < prev.len() {
                    assert(cur[i] == prev[i]);
                }
            }
            assert forall|i: int, j: int| 0 <= i < j < cur.len() implies block_rank(cur[i]) < block_rank(cur[j]) by {
                assert(cur[i] == prev[i]);
                if j < prev.len() {
                    assert(cur[j] == prev[j]);
                }
            }
        } else {
            assert(cur == prev);
        }
    }
}

/// Lists ready for writing: filling the empty lists of a provisioner whose channel at
/// index `c` has id `c` with the good blocks of factory-initialised tables, as `init`
/// does, lists each block once, lists only good blocks, keeps every LUN within its
/// capacity, and leaves no page that was handed out before.
pub proof fn lemma_filled_lists_ready(now: ProvisionerModel, before: ProvisionerModel, tables: BadBlockTable)
    requires
        free_lists_extended(now, before, |c: int, l: int| good_blocks(tables.channel_bad_block_tables@[c], l)),
        before.ids_match(),
        forall|c: int, l: int|
            0 <= c < N_CHANNELS && 0 <= l < LUNS_PER_CHANNEL ==> {
                &&& (#[trigger] before.channels[c].luns[l]).free.len() == 0
                &&& before.channels[c].luns[l].used.len() == 0
                &&& before.channels[c].luns[l].partially_used.len() == 0
            },
        forall|c: int| 0 <= c < N_CHANNELS ==> (#[trigger] tables.channel_bad_block_tables@[c]).factory_statuses(),
    ensures
        now.ids_match(),
        now.distinct(),
        now.blocks_good(tables),
        now.settled(),
        now.fresh_for(Set::empty()),
        now.wf() && now.addresses_valid() ==> ready_for_writes(now, tables, Set::empty()),
{
    let f = |c: int, l: int| good_blocks(tables.channel_bad_block_tables@[c], l);
    assert forall|c: int| 0 <= c < N_CHANNELS implies (#[trigger] now.channels[c]).channel_id == c by {
        assert(now.channels[c].channel_id == before.channels[c].channel_id);
    }
    assert forall|c: int, l: int| 0 <= c < N_CHANNELS && 0 <= l < LUNS_PER_CHANNEL implies {
        &&& (#[trigger] now.channels[c].luns[l]).distinct()
        &&& now.channels[c].luns[l].blocks_good(tables.channel_bad_block_tables@[c], l)
        &&& now.channels[c].luns[l].settled()
        &&& now.channels[c].luns[l].fresh_for(Set::empty())
    } by {
        let t = tables.channel_bad_block_tables@[c];
        let lun = now.channels[c].luns[l];
        assert(lun == LunModel { free: before.channels[c].luns[l].free + f(c, l), ..before.channels[c].luns[l] });
        assert(lun.free =~= good_blocks(t, l));
        lemma_good_blocks_upto_ordered(t, l, PLANES_PER_LUN * BLOCKS_PER_PLANE);
        lemma_good_blocks_not_reserved(t, l);
        assert forall|i: int, j: int| 0 <= i < j < lun.free.len() implies lun.free[i] != lun.free[j] by {
            assert(block_rank(lun.free[i]) < block_rank(lun.free[j]));
        }
    }
    assert forall|c: int| 0 <= c < N_CHANNELS implies {
        &&& (#[trigger] now.channels[c]).distinct()
        &&& now.channels[c].blocks_good(tables.channel_bad_block_tables@[c])
        &&& now.channels[c].settled()
        &&& now.channels[c].fresh_for(Set::empty())
    } by {
        assert forall|l: int| 0 <= l < LUNS_PER_CHANNEL implies (#[trigger] now.channels[c].luns[l]).fresh_for(
            crate::provisioner::invariants::lun_pages(Set::empty(), now.channels[c].channel_id, l),
        ) by {
            assert(crate::provisioner::invariants::lun_pages(Set::empty(), now.channels[c].channel_id, l)
                =~= Set::empty());
        }
        assert forall|l: int| 0 <= l < LUNS_PER_CHANNEL implies (#[trigger] now.channels[c].luns[l]).distinct()
            && now.channels[c].luns[l].blocks_good(tables.channel_bad_block_tables@[c], l)
            && now.channels[c].luns[l].settled() by {
        }
    }
}

/// Every write lands on a new page of a good block and loses no block: on settled lists
/// that hold only good blocks, each once, and from which no page of `written` can be
/// handed out again, the page a write takes is a valid address in a block the table
/// records as good and is not one of the pages `written` before; afterwards every LUN
/// lists the same blocks as before, and the lists keep all of this with that page added
/// to `written`.
pub proof fn lemma_write_takes_new_good_page(
    lists: ProvisionerModel,
    table: BadBlockTable,
    written: Set<PhysicalPageAddress>,
)
    requires
        lists.wf(),
        lists.addresses_valid(),
        lists.ids_match(),
        lists.distinct(),
        lists.blocks_good(table),
        lists.settled(),
        lists.fresh_for(written),
    ensures
        ({
            let (after, found) = lists.page_scan(0);
            &&& after.settled()
            &&& forall|c: int, l: int|
                0 <= c < N_CHANNELS && 0 <= l < LUNS_PER_CHANNEL ==> (#[trigger] after.channels[c].luns[l]).blocks()
                    == lists.channels[c].luns[l].blocks()
            &&& after.addresses_valid()
            &&& after.ids_match()
            &&& after.distinct()
            &&& after.blocks_good(table)
            &&& match found {
                Some((c, ppa)) => {
                    &&& ppa.valid()
                    &&& ppa.channel_id == c
                    &&& ppa.block_id != 0
                    &&& table.channel_bad_block_tables@[c].status(
                        ppa.lun_id as int,
                        ppa.plane_id as int,
                        ppa.block_id as int,
                    ) == BlockStatus::Good
                    &&& !written.contains(ppa)
                    &&& after.fresh_for(written.insert(ppa))
                },
                None => after.fresh_for(written),
            }
        }),
{
    lemma_page_scan_in_range(lists, 0);
    lemma_page_scan_good(lists, table, 0);
    lemma_page_scan_fresh(lists, written, 0);
    lemma_page_scan_keeps_blocks(lists, 0);
}

/// The lists after `n` page requests from `lists`, one per write, and the pages those
/// requests handed out, in order.
pub open spec fn pages_handed_out(lists: ProvisionerModel, n: nat) -> (ProvisionerModel, Seq<PhysicalPageAddress>)
    decreases n,
{
    if n == 0 {
        (lists, Seq::empty())
    } else {
        let (before, pages) = pages_handed_out(lists, (n - 1) as nat);
        let (after, found) = before.page_scan(0);
        match found {
            Some((c, ppa)) => (after, pages.push(ppa)),
            None => (after, pages),
        }
    }
}

/// Lists from which no page has been handed out yet and that hold only good blocks,
/// each once, within capacity, as `lemma_filled_lists_ready` gives them after `init`.
pub open spec fn ready_for_writes(lists: ProvisionerModel, table: BadBlockTable, written: Set<PhysicalPageAddress>) -> bool {
    &&& lists.wf()
    &&& lists.addresses_valid()
    &&& lists.ids_match()
    &&& lists.distinct()
    &&& lists.blocks_good(table)
    &&& lists.settled()
    &&& lists.fresh_for(written)
}

/// Over any run of writes after `init`, each write that gets a page lands on a page of a
/// good block that no earlier write took: from lists ready for writes, the pages handed
/// out by `n` successive writes are valid addresses in blocks the table records as good,
/// pairwise different, with pairwise different compact indices, and the lists stay ready
/// with those pages written.
pub proof fn lemma_writes_take_distinct_good_pages(lists: ProvisionerModel, table: BadBlockTable, n: nat)
    requires
        ready_for_writes(lists, table, Set::empty()),
    ensures
        ({
            let (after, pages) = pages_handed_out(lists, n);
            &&& ready_for_writes(after, table, pages.to_set())
            &&& forall|i: int|
                0 <= i < pages.len() ==> {
                    &&& (#[trigger] pages[i]).valid()
                    &&& pages[i].block_id != 0
                    &&& table.channel_bad_block_tables@[pages[i].channel_id as int].status(
                        pages[i].lun_id as int,
                        pages[i].plane_id as int,
                        pages[i].block_id as int,
                    ) == BlockStatus::Good
                }
            &&& forall|i: int, j: int|
                0 <= i < j < pages.len() ==> pages[i] != pages[j] && pages[i].compact() != pages[j].compact()
        }),
    decreases n,
{
    if n == 0 {
        assert(Seq::<PhysicalPageAddress>::empty().to_set() =~= Set::empty());
    } else {
        lemma_writes_take_distinct_good_pages(lists, table, (n - 1) as nat);
        let (before, pages) = pages_handed_out(lists, (n - 1) as nat);
        lemma_write_takes_new_good_page(before, table, pages.to_set());
        lemma_page_scan_wf(before, 0);
        let (after, found) = before.page_scan(0);
        if let Some((c, ppa)) = found {
            let pages2 = pages.push(ppa);
            pages.lemma_push_to_set_commute(ppa);
            assert forall|i: int, j: int| 0 <= i < j < pages2.len() implies pages2[i] != pages2[j]
                && pages2[i].compact() != pages2[j].compact() by {
                assert(pages2[i] == pages[i]);
                if j == pages.len() {
                    assert(pages.contains(pages[i]));
                    assert(pages[i] != ppa);
                } else {
                    assert(pages2[j] == pages[j]);
                }
                lemma_compact_pack_unpack(pages2[i]);
                lemma_compact_pack_unpack(pages2[j]);
            }
            assert forall|i: int| 0 <= i < pages2.len() implies {
                &&& (#[trigger] pages2[i]).valid()
                &&& pages2[i].block_id != 0
                &&& table.channel_bad_block_tables@[pages2[i].channel_id as int].status(
                    pages2[i].lun_id as int,
                    pages2[i].plane_id as int,
                    pages2[i].block_id as int,
                ) == BlockStatus::Good
            } by {
                if i < pages.len() {
                    assert(pages2[i] == pages[i]);
                }
            }
        }
    }
}

/// Only blocks that the medium reported erased successfully reach the free lists: when
/// `init` fills empty free lists from tables whose statuses follow the erases of medium
/// `MM`, every block on the free list of LUN `l` of channel `c` is one whose erase at
/// its own address the medium reported successful.
pub proof fn lemma_free_blocks_were_erased<MM: MediaManager>(
    now: ProvisionerModel,
    before: ProvisionerModel,
    tables: BadBlockTable,
    c: int,
    l: int,
    k: int,
)
    requires
        free_lists_extended(now, before, |c: int, l: int| good_blocks(tables.channel_bad_block_tables@[c], l)),
        0 <= c < N_CHANNELS,
        0 <= l < LUNS_PER_CHANNEL,
        before.channels[c].luns[l].free.len() == 0,
        tables.channel_bad_block_tables@[c].factory_statuses(),
        statuses_from_erases::<MM>(tables.channel_bad_block_tables@[c]),
        0 <= k < now.channels[c].luns[l].free.len(),
    ensures
        ({
            let b = now.channels[c].luns[l].free[k];
            MM::erase_succeeds(
                block_at(tables.channel_bad_block_tables@[c].channel_of() as usize, l, b.plane_id as int, b.id as int),
            )
        }),
{
    lemma_free_lists_hold_only_good_blocks(now, before, tables, c, l, k);
    let b = now.channels[c].luns[l].free[k];
    let t = tables.channel_bad_block_tables@[c];
    assert(t.status(l, b.plane_id as int, b.id as int) == BlockStatus::Good);
}

/// Read after write through the translation layer: once logical page `lpa` is paired
/// with the compact index of a valid page `ppa`, looking `lpa` up and unpacking the
/// index gives `ppa` back, the page the data was written to: a `read_page` of `lpa`
/// after a `write_page` of `lpa` that programmed `ppa` reads the medium at `ppa`.
pub proof fn lemma_read_follows_write(tables: MappingTables, lpa: int, ppa: PhysicalPageAddress)
    requires
        tables.sized(),
        0 <= lpa < TOTAL_PAGES,
        ppa.valid(),
    ensures
        ({
            let after = tables.set_pair(lpa, ppa.compact());
            &&& after.logical_to_physical[lpa] == Some(ppa.compact() as usize)
            &&& PhysicalPageAddress::from_compact(ppa.compact()) == ppa
        }),
{
    lemma_compact_pack_unpack(ppa);
}

/// The answer to a page read, given what the medium answered.
pub fn page_read_outcome(read: Result<PageContent, MediaManagerError>) -> (r: Result<
    PageContent,
    FtlErr<'static>,
>)
    ensures
        match read {
            Ok(content) => r == Ok::<PageContent, FtlErr>(content),
            Err(_) => r == Err::<PageContent, FtlErr>(FtlErr::ReadPage("Media manager error!")),
        },
{
    match read {
        Ok(content) => Ok(content),
        Err(_) => Err(FtlErr::ReadPage("Media manager error!")),
    }
}

/// The answer to a page write, given what the medium answered.
pub fn page_write_outcome(written: Result<(), MediaManagerError>) -> (r: Result<(), FtlErr<'static>>)
    ensures
        match written {
            Ok(()) => r == Ok::<(), FtlErr>(()),
            Err(_) => r == Err::<(), FtlErr>(FtlErr::WritePage("Media manager error")),
        },
{
    match written {
        Ok(()) => Ok(()),
        Err(_) => Err(FtlErr::WritePage("Media manager error")),
    }
}

impl<MM: MediaManager> FTL<MM> {
    /// The logical/physical mapping tables.
    pub closed spec fn mapping(self) -> MappingTables {
        self.l2p_map@
    }

    /// The block lists of the provisioner.
    pub closed spec fn lists(self) -> ProvisionerModel {
        self.provisioner.model()
    }

    /// The bad block table.
    pub closed spec fn table(self) -> BadBlockTable {
        self.bbt
    }

    /// A translation layer with no mapping, no free block and every block good.
    pub fn new() -> (ftl: Self)
        ensures
            ftl.mapping().sized(),
            forall|i: int| 0 <= i < TOTAL_PAGES ==> #[trigger] ftl.mapping().logical_to_physical[i] is None,
            forall|i: int| 0 <= i < TOTAL_PAGES ==> #[trigger] ftl.mapping().physical_to_logical[i] is None,
            ftl.lists().wf(),
            ftl.lists().addresses_valid(),
            ftl.lists().ids_match(),
            forall|c: int, l: int|
                0 <= c < N_CHANNELS && 0 <= l < LUNS_PER_CHANNEL ==> {
                    &&& (#[trigger] ftl.lists().channels[c].luns[l]).free.len() == 0
                    &&& ftl.lists().channels[c].luns[l].used.len() == 0
                    &&& ftl.lists().channels[c].luns[l].partially_used.len() == 0
                },
            forall|c: int|
                0 <= c < N_CHANNELS ==> #[trigger] ftl.table().channel_bad_block_tables@[c].is_new_table(
                    c as usize,
                ),
    {
        let ftl = FTL::<MM> {
            l2p_map: L2pMapper::new(),
            provisioner: Provisioner::new(),
            bbt: BadBlockTable::new(),
            gc: GarbageCollector::new(),
            phanthom_data: PhantomData::<MM>,
        };
        assert forall|c: int, l: int| 0 <= c < N_CHANNELS && 0 <= l < LUNS_PER_CHANNEL implies {
            &&& (#[trigger] ftl.lists().channels[c].luns[l]).free.len() == 0
            &&& ftl.lists().channels[c].luns[l].used.len() == 0
            &&& ftl.lists().channels[c].luns[l].partially_used.len() == 0
        } by {
            let ch = ftl.lists().channels[c];
            assert(ch.luns[l].free.len() == 0);
        }
        ftl
    }

    /// Factory-initialises the bad block table, then puts every block it records as
    /// good on the free list of its LUN.
    pub fn init(&mut self) -> (r: Result<(), FtlErr>)
        requires
            old(self).lists().wf(),
            forall|c: int| 0 <= c < N_CHANNELS ==> {
                &&& (#[trigger] old(self).table().channel_bad_block_tables@[c]).version_of() < usize::MAX
                &&& old(self).table().channel_bad_block_tables@[c].current_page_of() < usize::MAX
            },
        ensures
            final(self).mapping() == old(self).mapping(),
            final(self).lists().wf(),
            old(self).lists().addresses_valid() ==> final(self).lists().addresses_valid(),
            ({
                ||| {
                    &&& r == Err::<(), FtlErr>(FtlErr::Init("Bad block table factory init error!"))
                    &&& final(self).lists() == old(self).lists()
                    &&& exists|k: int| 0 <= k < N_CHANNELS && #[trigger] final(self).table().initialized_through(old(self).table(), k + 1)
                }
                ||| {
                    let tables = final(self).table();
                    &&& tables.initialized_through(old(self).table(), N_CHANNELS as int)
                    &&& forall|c: int|
                        0 <= c < N_CHANNELS ==> statuses_from_erases::<MM>(#[trigger] tables.channel_bad_block_tables@[c])
                    &&& good_blocks_fit(old(self).lists(), tables) ==> {
                        &&& r == Ok::<(), FtlErr>(())
                        &&& free_lists_extended(
                            final(self).lists(),
                            old(self).lists(),
                            |c: int, l: int| good_blocks(tables.channel_bad_block_tables@[c], l),
                        )
                    }
                    &&& !good_blocks_fit(old(self).lists(), tables) ==> r == Err::<(), FtlErr>(
                        FtlErr::Init("Could not push to free list in factory init"),
                    )
                }
            }),
    {
        assert forall|c: int| 0 <= c < N_CHANNELS implies {
            &&& (#[trigger] self.bbt.channel_bad_block_tables@[c]).version_of() < usize::MAX
            &&& self.bbt.channel_bad_block_tables@[c].current_page_of() < usize::MAX
        } by {
            assert(self.table().channel_bad_block_tables@[c] == self.bbt.channel_bad_block_tables@[c]);
        }
        let Ok(()) = self.bbt.factory_init::<MM>() else {
            return Err(FtlErr::Init("Bad block table factory init error!"));
        };
        self.fill_free_lists()
    }

    /// Puts every block that the bad block table records as good on the free list of its
    /// LUN, plane by plane, after what each list already holds. Fails, as soon as a list
    /// is full, when the good blocks of some LUN do not fit on its free list.
    pub fn fill_free_lists(&mut self) -> (r: Result<(), FtlErr>)
        requires
            old(self).lists().wf(),
        ensures
            final(self).mapping() == old(self).mapping(),
            final(self).table() == old(self).table(),
            final(self).lists().wf(),
            old(self).lists().addresses_valid() ==> final(self).lists().addresses_valid(),
            good_blocks_fit(old(self).lists(), old(self).table()) ==> {
                &&& r == Ok::<(), FtlErr>(())
                &&& free_lists_extended(
                    final(self).lists(),
                    old(self).lists(),
                    |c: int, l: int| good_blocks(old(self).table().channel_bad_block_tables@[c], l),
                )
            },
            !good_blocks_fit(old(self).lists(), old(self).table()) ==> r == Err::<(), FtlErr>(
                FtlErr::Init("Could not push to free list in factory init"),
            ),
    {
        let ghost before = old(self).provisioner.model();
        let ghost tables = self.bbt;
        proof {
            assert(free_lists_extended(self.provisioner.model(), before, |c: int, l: int| Seq::<Block>::empty())) by {
                assert forall|c: int, l: int| 0 <= c < N_CHANNELS && 0 <= l < LUNS_PER_CHANNEL implies #[trigger] self.provisioner.model().channels[c].luns[l]
                    == LunModel { free: before.channels[c].luns[l].free + Seq::<Block>::empty(), ..before.channels[c].luns[l] } by {
                    assert(before.channels[c].luns[l].free + Seq::<Block>::empty() =~= before.channels[c].luns[l].free);
                }
            }
            lemma_extension_congruent(
                self.provisioner.model(),
                before,
                |c: int, l: int| Seq::<Block>::empty(),
                |c: int, l: int| goods_added(tables, c, l, 0, 0, 0),
            );
        }
        let mut channel_idx: usize = 0;
        while channel_idx < N_CHANNELS
            invariant
                channel_idx <= N_CHANNELS,
                self.bbt == tables,
                tables == old(self).bbt,
                before == old(self).provisioner.model(),
                self.l2p_map@ == old(self).l2p_map@,
                self.provisioner.model().wf(),
                before.wf(),
                before.addresses_valid() ==> self.provisioner.model().addresses_valid(),
                free_lists_extended(
                    self.provisioner.model(),
                    before,
                    |c: int, l: int| goods_added(tables, c, l, channel_idx as int, 0, 0),
                ),
            decreases N_CHANNELS - channel_idx,
        {
            let ch = self.bbt.channel_bad_block_tables[channel_idx];
            let mut lun_idx: usize = 0;
            while lun_idx < LUNS_PER_CHANNEL
                invariant
                    channel_idx < N_CHANNELS,
                    lun_idx <= LUNS_PER_CHANNEL,
                    ch == tables.channel_bad_block_tables@[channel_idx as int],
                    self.bbt == tables,
                    tables == old(self).bbt,
                    before == old(self).provisioner.model(),
                    self.l2p_map@ == old(self).l2p_map@,
                    self.provisioner.model().wf(),
                    before.wf(),
                    before.addresses_valid() ==> self.provisioner.model().addresses_valid(),
                    free_lists_extended(
                        self.provisioner.model(),
                        before,
                        |c: int, l: int| goods_added(tables, c, l, channel_idx as int, lun_idx as int, 0),
                    ),
                decreases LUNS_PER_CHANNEL - lun_idx,
            {
                let mut plane_idx: usize = 0;
                while plane_idx < PLANES_PER_LUN
                    invariant
                        channel_idx < N_CHANNELS,
                        lun_idx < LUNS_PER_CHANNEL,
                        plane_idx <= PLANES_PER_LUN,
                        ch == tables.channel_bad_block_tables@[channel_idx as int],
                        self.bbt == tables,
                        tables == old(self).bbt,
                        before == old(self).provisioner.model(),
                        self.l2p_map@ == old(self).l2p_map@,
                        self.provisioner.model().wf(),
                        before.wf(),
                        before.addresses_valid() ==> self.provisioner.model().addresses_valid(),
                        free_lists_extended(
                            self.provisioner.model(),
                            before,
                            |c: int, l: int| goods_added(
                                tables,
                                c,
                                l,
                                channel_idx as int,
                                lun_idx as int,
                                plane_idx * BLOCKS_PER_PLANE,
                            ),
                        ),
                    decreases PLANES_PER_LUN - plane_idx,
                {
                    let mut block_idx: usize = 0;
                    while block_idx < BLOCKS_PER_PLANE
                        invariant
                            channel_idx < N_CHANNELS,
                            lun_idx < LUNS_PER_CHANNEL,
                            plane_idx < PLANES_PER_LUN,
                            block_idx <= BLOCKS_PER_PLANE,
                            ch == tables.channel_bad_block_tables@[channel_idx as int],
                            self.bbt == tables,
                            tables == old(self).bbt,
                            before == old(self).provisioner.model(),
                            self.l2p_map@ == old(self).l2p_map@,
                            self.provisioner.model().wf(),
                            before.wf(),
                            before.addresses_valid() ==> self.provisioner.model().addresses_valid(),
                            free_lists_extended(
                                self.provisioner.model(),
                                before,
                                |c: int, l: int| goods_added(
                                    tables,
                                    c,
                                    l,
                                    channel_idx as int,
                                    lun_idx as int,
                                    plane_idx * BLOCKS_PER_PLANE + block_idx,
                                ),
                            ),
                        decreases BLOCKS_PER_PLANE - block_idx,
                    {
                        let ghost n: int = plane_idx * BLOCKS_PER_PLANE + block_idx;
                        let ghost cur = self.provisioner.model();
                        let ghost blk = Block { id: block_idx, plane_id: plane_idx };
                        proof {
                            assert(n % (BLOCKS_PER_PLANE as int) == block_idx && n / (BLOCKS_PER_PLANE as int)
                                == plane_idx) by (nonlinear_arith)
                                requires
                                    n == plane_idx * BLOCKS_PER_PLANE + block_idx,
                                    block_idx < BLOCKS_PER_PLANE,
                                    BLOCKS_PER_PLANE == 64,
                            ;
                            assert(good_blocks_upto(ch, lun_idx as int, n + 1) == if ch.status(
                                lun_idx as int,
                                plane_idx as int,
                                block_idx as int,
                            ) == BlockStatus::Good {
                                good_blocks_upto(ch, lun_idx as int, n).push(blk)
                            } else {
                                good_blocks_upto(ch, lun_idx as int, n)
                            });
                        }
                        if ch.recorded_status(lun_idx, plane_idx, block_idx) == BlockStatus::Good {
                            let pushed = self.provisioner.push_free_block(
                                &PhysicalBlockAddress {
                                    channel_id: channel_idx,
                                    lun_id: lun_idx,
                                    plane_id: plane_idx,
                                    block_id: block_idx,
                                },
                            );
                            let Ok(()) = pushed else {
                                proof {
                                    let c = channel_idx as int;
                                    let l = lun_idx as int;
                                    assert(cur.channels[c].luns[l] == LunModel {
                                        free: before.channels[c].luns[l].free + good_blocks_upto(ch, l, n),
                                        ..before.channels[c].luns[l]
                                    });
                                    lemma_good_blocks_upto_monotonic(
                                        ch,
                                        l,
                                        n + 1,
                                        PLANES_PER_LUN * BLOCKS_PER_PLANE,
                                    );
                                    assert(!good_blocks_fit(before, tables));
                                }
                                return Err(FtlErr::Init("Could not push to free list in factory init"));
                            };
                            proof {
                                let c0 = channel_idx as int;
                                let l0 = lun_idx as int;
                                let now = self.provisioner.model();
                                assert forall|c: int, l: int| 0 <= c < N_CHANNELS && 0 <= l < LUNS_PER_CHANNEL implies #[trigger] now.channels[c].luns[l]
                                    == LunModel {
                                    free: before.channels[c].luns[l].free + goods_added(tables, c, l, c0, l0, n + 1),
                                    ..before.channels[c].luns[l]
                                } by {
                                    if c == c0 && l == l0 {
                                        assert(before.channels[c].luns[l].free + goods_added(tables, c, l, c0, l0, n + 1)
                                            =~= (before.channels[c].luns[l].free + goods_added(tables, c, l, c0, l0, n)).push(blk));
                                    } else {
                                        assert(now.channels[c].luns[l] == cur.channels[c].luns[l]);
                                    }
                                }
                            }
                        } else {
                            proof {
                                let c0 = channel_idx as int;
                                let l0 = lun_idx as int;
                                lemma_extension_congruent(
                                    self.provisioner.model(),
                                    before,
                                    |c: int, l: int| goods_added(tables, c, l, c0, l0, n),
                                    |c: int, l: int| goods_added(tables, c, l, c0, l0, n + 1),
                                );
                            }
                        }
                        block_idx = block_idx + 1;
                    }
                    plane_idx = plane_idx + 1;
                }
                proof {
                    let c0 = channel_idx as int;
                    let l0 = lun_idx as int;
                    lemma_extension_congruent(
                        self.provisioner.model(),
                        before,
                        |c: int, l: int| goods_added(tables, c, l, c0, l0, PLANES_PER_LUN * BLOCKS_PER_PLANE),
                        |c: int, l: int| goods_added(tables, c, l, c0, l0 + 1, 0),
                    );
                }
                lun_idx = lun_idx + 1;
            }
            proof {
                let c0 = channel_idx as int;
                lemma_extension_congruent(
                    self.provisioner.model(),
                    before,
                    |c: int, l: int| goods_added(tables, c, l, c0, LUNS_PER_CHANNEL as int, 0),
                    |c: int, l: int| goods_added(tables, c, l, c0 + 1, 0, 0),
                );
            }
            channel_idx = channel_idx + 1;
        }
        proof {
            lemma_extension_congruent(
                self.provisioner.model(),
                before,
                |c: int, l: int| goods_added(tables, c, l, N_CHANNELS as int, 0, 0),
                |c: int, l: int| good_blocks(tables.channel_bad_block_tables@[c], l),
            );
            let now = self.provisioner.model();
            assert forall|c: int, l: int| 0 <= c < N_CHANNELS && 0 <= l < LUNS_PER_CHANNEL implies #[trigger] before.channels[c].luns[l].free.len()
                + good_blocks(tables.channel_bad_block_tables@[c], l).len() <= BLOCKS_PER_LUN by {
                assert(now.channels[c].wf());
                assert(now.channels[c].luns[l].bounded());
            }
        }
        Ok(())
    }

    /// Reads logical page `lpa` from the physical page it is mapped to. Fails if the
    /// page has never been written or if the medium fails.
    pub fn read_page(&self, lpa: LogicalPageAddress) -> (r: Result<PageContent, FtlErr>)
        requires
            lpa < TOTAL_PAGES,
        ensures
            self.mapping().logical_to_physical[lpa as int] is None ==> r == Err::<PageContent, FtlErr>(
                FtlErr::ReadPage("Mapping error!"),
            ),
            self.mapping().logical_to_physical[lpa as int] is Some ==> r is Ok || r == Err::<
                PageContent,
                FtlErr,
            >(FtlErr::ReadPage("Media manager error!")),
            self.mapping().logical_to_physical[lpa as int] matches Some(c) ==> (r matches Ok(content)
                ==> MM::page_holds(PhysicalPageAddress::from_compact(c as int), content)),
    {
        let Some(ppa) = self.l2p_map.get_physical_address(lpa) else {
            return Err(FtlErr::ReadPage("Mapping error!"));
        };
        page_read_outcome(MM::read_page(&PhysicalPageAddress::from(ppa)))
    }

    /// Writes logical page `lpa`: takes a free page from the provisioner, maps `lpa` to
    /// it, and programs it on the medium.
    pub fn write_page(&mut self, lpa: LogicalPageAddress) -> (r: Result<(), FtlErr>)
        requires
            old(self).lists().wf(),
            old(self).lists().addresses_valid(),
        ensures
            final(self).lists().wf(),
            final(self).lists().addresses_valid(),
            final(self).table() == old(self).table(),
            old(self).mapping().sized(),
            final(self).mapping().sized(),
            ({
                let (after, found) = old(self).lists().page_scan(0);
                &&& final(self).lists() == after
                &&& match found {
                    None => {
                        &&& r == Err::<(), FtlErr>(FtlErr::WritePage("Provision error!"))
                        &&& final(self).mapping() == old(self).mapping()
                    },
                    Some((c, ppa)) => {
                        &&& ppa.valid()
                        &&& lpa >= TOTAL_PAGES ==> {
                            &&& r == Err::<(), FtlErr>(FtlErr::WritePage("Mapping error"))
                            &&& final(self).mapping() == old(self).mapping()
                        }
                        &&& lpa < TOTAL_PAGES ==> {
                            &&& final(self).mapping() == old(self).mapping().set_pair(lpa as int, ppa.compact())
                            &&& r is Ok || r == Err::<(), FtlErr>(FtlErr::WritePage("Media manager error"))
                            &&& r is Ok ==> MM::write_succeeds(ppa)
                        }
                    },
                }
            }),
    {
        proof {
            use_type_invariant(&self.l2p_map);
        }
        let Ok(ppa) = self.provisioner.provision_page() else {
            return Err(FtlErr::WritePage("Provision error!"));
        };
        let Ok(()) = self.l2p_map.set_address_pairs(lpa, ppa.into()) else {
            return Err(FtlErr::WritePage("Mapping error"));
        };
        page_write_outcome(MM::write_page(&ppa))
    }
}

} // verus!
