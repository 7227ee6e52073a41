use vstd::prelude::*;

use crate::bad_block_table::table::{BlockStatus, ChannelBadBlockTable};
use crate::config::{
    BLOCKS_PER_LUN, BLOCKS_PER_PLANE, LUNS_PER_CHANNEL, N_CHANNELS, PAGES_PER_BLOCK, PLANES_PER_LUN,
};
use crate::device::address::{PhysicalBlockAddress, PhysicalPageAddress};
use crate::utils::ring_buffer::RingBuffer;

verus! {

/// A provisioner that consults each channel's bad block table before handing out a
/// block: a free block that the table does not record as good is discarded.
pub struct GlobalProvisoner {
    channel_provisioners: [ChannelProvisioner; N_CHANNELS],
    last_channel_provisioned: usize,
}

#[derive(Copy, Clone)]
struct ChannelProvisioner {
    luns: [LUN; LUNS_PER_CHANNEL],
    last_lun_picked: usize,
    channel_id: usize,
    bbt: ChannelBadBlockTable,
}

#[derive(Copy, Clone)]
struct LUN {
    free: RingBuffer<Block, BLOCKS_PER_LUN>,
    used: RingBuffer<Block, BLOCKS_PER_LUN>,
    partially_used: RingBuffer<BlockWithPageInfo, BLOCKS_PER_LUN>,
}

#[derive(Copy, Clone)]
struct Block {
    id: usize,
    plane_id: usize,
}

#[derive(Copy, Clone)]
struct BlockWithPageInfo {
    id: usize,
    plane_id: usize,
    pages: [Page; PAGES_PER_BLOCK],
}

#[derive(Copy, Clone)]
struct Page {
    in_use: bool,
}

#[derive(Debug, PartialEq, Eq, Structural, Clone, Copy)]
pub enum ProvisionError {
    NoFreeBlock,
    NoFreePage,
}

// ---------------------------------------------------------------------------------
// Mathematical model
// ---------------------------------------------------------------------------------

/// A partly written block: block id, plane id, and for each page whether it is in use.
pub type PagedBlockModel = (usize, usize, Seq<bool>);

/// The three lists of a LUN, front first; a block is its (block id, plane id).
#[verifier::ext_equal]
pub struct CheckedLunModel {
    pub free: Seq<(usize, usize)>,
    pub used: Seq<(usize, usize)>,
    pub partially_used: Seq<PagedBlockModel>,
}

/// One channel: its LUNs' lists, round-robin position, id, and bad block table.
#[verifier::ext_equal]
pub struct CheckedChannelModel {
    pub luns: Seq<CheckedLunModel>,
    pub last_lun_picked: usize,
    pub channel_id: usize,
    pub bbt: ChannelBadBlockTable,
}

/// All channels and the round-robin position among them.
#[verifier::ext_equal]
pub struct CheckedProvisionerModel {
    pub channels: Seq<CheckedChannelModel>,
    pub last_channel_provisioned: int,
}

/// The first page at index `j` or later that is not in use, or `pages.len()` if none.
pub open spec fn first_unused_from(pages: Seq<bool>, j: int) -> int
    decreases pages.len() - j,
{
    if j < 0 || j >= pages.len() {
        pages.len() as int
    } else if !pages[j] {
        j
    } else {
        first_unused_from(pages, j + 1)
    }
}

/// The pages of a block just opened: page 0 in use, the others not.
pub open spec fn opened_block_pages() -> Seq<bool> {
    Seq::new(PAGES_PER_BLOCK as nat, |k: int| k == 0)
}

/// Appending to a list of capacity `BLOCKS_PER_LUN`, which leaves a full list as it is.
pub open spec fn push_if_room<T>(list: Seq<T>, x: T) -> Seq<T> {
    if list.len() < BLOCKS_PER_LUN {
        list.push(x)
    } else {
        list
    }
}

impl CheckedChannelModel {
    /// Whether the table records block `id` of plane `plane` of LUN `l` as good (block 0
    /// is always reserved).
    pub open spec fn good(self, l: int, plane: usize, id: usize) -> bool {
        id != 0 && self.bbt.status(l, plane as int, id as int) == BlockStatus::Good
    }

    /// A block request at LUN `l`: the front free block leaves the free list; if it is
    /// good it goes to the used list and is granted, otherwise it is discarded.
    pub open spec fn lun_block_step(self, l: int) -> (CheckedLunModel, Option<PhysicalBlockAddress>) {
        let lun = self.luns[l];
        if lun.free.len() == 0 {
            (lun, None)
        } else {
            let f = lun.free[0];
            let free = lun.free.drop_first();
            if self.good(l, f.1, f.0) {
                (
                    CheckedLunModel { free, used: push_if_room(lun.used, f), ..lun },
                    Some(
                        PhysicalBlockAddress {
                            channel_id: self.channel_id,
                            lun_id: l as usize,
                            plane_id: f.1,
                            block_id: f.0,
                        },
                    ),
                )
            } else {
                (CheckedLunModel { free, ..lun }, None)
            }
        }
    }

    /// A page request at LUN `l`. The front partly written block gives its first unused
    /// page; it goes to the used list once none of its pages stays unused and to the end
    /// of the partly written list otherwise, and it is discarded if it has no unused
    /// page. With no partly written block, a good front free block is opened and gives
    /// page 0; a front free block that is not good is discarded.
    pub open spec fn lun_page_step(self, l: int) -> (CheckedLunModel, Option<PhysicalPageAddress>) {
        let lun = self.luns[l];
        if lun.partially_used.len() > 0 {
            let b = lun.partially_used[0];
            let rest = lun.partially_used.drop_first();
            let j = first_unused_from(b.2, 0);
            if j >= PAGES_PER_BLOCK {
                (CheckedLunModel { partially_used: rest, ..lun }, None)
            } else {
                let ppa = PhysicalPageAddress {
                    channel_id: self.channel_id,
                    lun_id: l as usize,
                    plane_id: b.1,
                    block_id: b.0,
                    page_id: j as usize,
                };
                if first_unused_from(b.2, j + 1) >= PAGES_PER_BLOCK {
                    (
                        CheckedLunModel {
                            partially_used: rest,
                            used: push_if_room(lun.used, (b.0, b.1)),
                            ..lun
                        },
                        Some(ppa),
                    )
                } else {
                    (
                        CheckedLunModel { partially_used: rest.push((b.0, b.1, b.2.update(j, true))), ..lun },
                        Some(ppa),
                    )
                }
            }
        } else if lun.free.len() > 0 {
            let f = lun.free[0];
            let free = lun.free.drop_first();
            if self.good(l, f.1, f.0) {
                (
                    CheckedLunModel { free, partially_used: seq![(f.0, f.1, opened_block_pages())], ..lun },
                    Some(
                        PhysicalPageAddress {
                            channel_id: self.channel_id,
                            lun_id: l as usize,
                            plane_id: f.1,
                            block_id: f.0,
                            page_id: 0,
                        },
                    ),
                )
            } else {
                (CheckedLunModel { free, ..lun }, None)
            }
        } else {
            (lun, None)
        }
    }

    /// A block request with `k` LUNs already tried: the round-robin position moves to the
    /// next LUN, which serves the request or passes it on.
    pub open spec fn block_scan(self, k: nat) -> (CheckedChannelModel, Option<PhysicalBlockAddress>)
        decreases LUNS_PER_CHANNEL - k,
    {
        if k >= LUNS_PER_CHANNEL {
            (self, None)
        } else {
            let l = (self.last_lun_picked + 1) % (LUNS_PER_CHANNEL as int);
            let (lun, granted) = self.lun_block_step(l);
            let next = CheckedChannelModel {
                luns: self.luns.update(l, lun),
                last_lun_picked: l as usize,
                ..self
            };
            match granted {
                Some(pba) => (next, Some(pba)),
                None => next.block_scan(k + 1),
            }
        }
    }

    /// A page request with `k` LUNs already tried, as `block_scan` for pages.
    pub open spec fn page_scan(self, k: nat) -> (CheckedChannelModel, Option<PhysicalPageAddress>)
        decreases LUNS_PER_CHANNEL - k,
    {
        if k >= LUNS_PER_CHANNEL {
            (self, None)
        } else {
            let l = (self.last_lun_picked + 1) % (LUNS_PER_CHANNEL as int);
            let (lun, granted) = self.lun_page_step(l);
            let next = CheckedChannelModel {
                luns: self.luns.update(l, lun),
                last_lun_picked: l as usize,
                ..self
            };
            match granted {
                Some(ppa) => (next, Some(ppa)),
                None => next.page_scan(k + 1),
            }
        }
    }

    /// Every block on the used and partly written lists is good.
    pub open spec fn taken_blocks_good(self) -> bool {
        &&& forall|l: int, k: int|
            0 <= l < LUNS_PER_CHANNEL && 0 <= k < self.luns[l].used.len() ==> self.good(
                l,
                (#[trigger] self.luns[l].used[k]).1,
                self.luns[l].used[k].0,
            )
        &&& forall|l: int, k: int|
            0 <= l < LUNS_PER_CHANNEL && 0 <= k < self.luns[l].partially_used.len() ==> self.good(
                l,
                (#[trigger] self.luns[l].partially_used[k]).1,
                self.luns[l].partially_used[k].0,
            )
    }

    /// Every list of every LUN is empty.
    pub open spec fn lists_empty(self) -> bool {
        forall|l: int|
            0 <= l < LUNS_PER_CHANNEL ==> {
                &&& (#[trigger] self.luns[l]).free.len() == 0
                &&& self.luns[l].used.len() == 0
                &&& self.luns[l].partially_used.len() == 0
            }
    }
}

impl CheckedProvisionerModel {
    /// The channel the next request goes to.
    pub open spec fn next_channel(self) -> int {
        (self.last_channel_provisioned + 1) % (N_CHANNELS as int)
    }

    /// The provisioner after a block request, and the block granted, if any.
    pub open spec fn block_request(self) -> (CheckedProvisionerModel, Option<PhysicalBlockAddress>) {
        let c = self.next_channel();
        let (ch, granted) = self.channels[c].block_scan(0);
        (CheckedProvisionerModel { channels: self.channels.update(c, ch), last_channel_provisioned: c }, granted)
    }

    /// The provisioner after a page request, and the page granted, if any.
    pub open spec fn page_request(self) -> (CheckedProvisionerModel, Option<PhysicalPageAddress>) {
        let c = self.next_channel();
        let (ch, granted) = self.channels[c].page_scan(0);
        (CheckedProvisionerModel { channels: self.channels.update(c, ch), last_channel_provisioned: c }, granted)
    }

    /// No LUN of any channel has a block on any list.
    pub open spec fn lists_empty(self) -> bool {
        forall|c: int| 0 <= c < N_CHANNELS ==> (#[trigger] self.channels[c]).lists_empty()
    }
}

impl BlockWithPageInfo {
    spec fn model(self) -> PagedBlockModel {
        (self.id, self.plane_id, Seq::new(PAGES_PER_BLOCK as nat, |k: int| self.pages@[k].in_use))
    }
}

impl LUN {
    spec fn model(self) -> CheckedLunModel {
        CheckedLunModel {
            free: self.free@.map_values(|b: Block| (b.id, b.plane_id)),
            used: self.used@.map_values(|b: Block| (b.id, b.plane_id)),
            partially_used: self.partially_used@.map_values(|b: BlockWithPageInfo| b.model()),
        }
    }

    /// Every block on the free list lies within the device geometry.
    spec fn free_in_range(self) -> bool {
        forall|k: int|
            0 <= k < self.free@.len() ==> {
                &&& (#[trigger] self.free@[k]).plane_id < PLANES_PER_LUN
                &&& self.free@[k].id < BLOCKS_PER_PLANE
            }
    }
}

/// The first page of `pages` at index `start` or later that is not in use, or
/// `PAGES_PER_BLOCK` if there is none.
fn first_unused_page(pages: &[Page; PAGES_PER_BLOCK], start: usize) -> (r: usize)
    requires
        start <= PAGES_PER_BLOCK,
    ensures
        r == first_unused_from(Seq::new(PAGES_PER_BLOCK as nat, |k: int| pages@[k].in_use), start as int),
        start <= r <= PAGES_PER_BLOCK,
{
    let ghost s = Seq::new(PAGES_PER_BLOCK as nat, |k: int| pages@[k].in_use);
    let mut k: usize = start;
    while k < PAGES_PER_BLOCK
        invariant
            start <= k <= PAGES_PER_BLOCK,
            s == Seq::new(PAGES_PER_BLOCK as nat, |k: int| pages@[k].in_use),
            first_unused_from(s, start as int) == first_unused_from(s, k as int),
        decreases PAGES_PER_BLOCK - k,
    {
        if !pages[k].in_use {
            return k;
        }
        k = k + 1;
    }
    k
}

impl LUN {
    /// Dropping the front of the free list, or leaving it as it is, keeps its blocks in range.
    proof fn lemma_free_in_range_after_pop(a: LUN, b: LUN)
        requires
            a.free_in_range(),
            b.free@ == a.free@ || (a.free@.len() > 0 && b.free@ == a.free@.drop_first()),
        ensures
            b.free_in_range(),
    {
        assert forall|k: int| 0 <= k < b.free@.len() implies {
            &&& (#[trigger] b.free@[k]).plane_id < PLANES_PER_LUN
            &&& b.free@[k].id < BLOCKS_PER_PLANE
        } by {
            if b.free@ == a.free@ {
                assert(b.free@[k] == a.free@[k]);
            } else {
                assert(b.free@[k] == a.free@[k + 1]);
            }
        }
    }
}

impl ChannelProvisioner {
    spec fn model(self) -> CheckedChannelModel {
        CheckedChannelModel {
            luns: Seq::new(LUNS_PER_CHANNEL as nat, |l: int| self.luns@[l].model()),
            last_lun_picked: self.last_lun_picked,
            channel_id: self.channel_id,
            bbt: self.bbt,
        }
    }

    /// The round-robin position names a LUN and free blocks lie in the device geometry.
    spec fn wf(self) -> bool {
        &&& self.last_lun_picked < LUNS_PER_CHANNEL
        &&& forall|l: int| 0 <= l < LUNS_PER_CHANNEL ==> (#[trigger] self.luns@[l]).free_in_range()
    }

    fn new(channel_id: usize, bbt: ChannelBadBlockTable) -> (cp: Self)
        ensures
            cp.wf(),
            cp.model().lists_empty(),
            cp.last_lun_picked == 0,
            cp.channel_id == channel_id,
            cp.bbt == bbt,
    {
        let lun = LUN {
            free: RingBuffer::new(),
            used: RingBuffer::new(),
            partially_used: RingBuffer::new(),
        };
        let luns = vstd::array::array_fill_for_copy_types::<LUN, LUNS_PER_CHANNEL>(lun);
        assert(forall|l: int| 0 <= l < LUNS_PER_CHANNEL ==> #[trigger] luns@[l] == lun);
        let cp = ChannelProvisioner { luns, last_lun_picked: 0, channel_id, bbt };
        assert forall|l: int| 0 <= l < LUNS_PER_CHANNEL implies {
            &&& (#[trigger] cp.model().luns[l]).free.len() == 0
            &&& cp.model().luns[l].used.len() == 0
            &&& cp.model().luns[l].partially_used.len() == 0
        } by {
            assert(cp.luns@[l] == lun);
        }
        cp
    }

    /// Tries the LUNs in round-robin order for a good free block, moving it to the
    /// used list; free blocks found not good are discarded on the way.
    fn provision_block(&mut self) -> (r: Result<PhysicalBlockAddress, ProvisionError>)
        requires
            old(self).wf(),
        ensures
            final(self).wf(),
            final(self).channel_id == old(self).channel_id,
            final(self).bbt == old(self).bbt,
            ({
                let (after, granted) = old(self).model().block_scan(0);
                &&& final(self).model() == after
                &&& match granted {
                    Some(pba) => r == Ok::<PhysicalBlockAddress, ProvisionError>(pba),
                    None => r == Err::<PhysicalBlockAddress, ProvisionError>(ProvisionError::NoFreeBlock),
                }
            }),
    {
        let mut step: usize = 0;
        while step < self.luns.len()
            invariant
                step <= LUNS_PER_CHANNEL,
                self.wf(),
                self.channel_id == old(self).channel_id,
                self.bbt == old(self).bbt,
                self.model().block_scan(step as nat) == old(self).model().block_scan(0),
            decreases LUNS_PER_CHANNEL - step,
        {
            let ghost before = self.model();
            self.last_lun_picked = (self.last_lun_picked + 1) % self.luns.len();
            let l = self.last_lun_picked;
            let mut lun = self.luns[l];
            let ghost lun0 = lun;
            let popped = lun.free.pop();
            if let Some(block) = popped {
                let pba = PhysicalBlockAddress {
                    channel_id: self.channel_id,
                    lun_id: l,
                    plane_id: block.plane_id,
                    block_id: block.id,
                };
                assert(lun0.free_in_range());
                assert(lun0.free@[0] == block);
                if let BlockStatus::Good = self.bbt.get_block_status(&pba) {
                    let _ = lun.used.push(block);
                    assert(lun.model() =~= before.lun_block_step(l as int).0);
                    self.luns[l] = lun;
                    assert(self.model().luns =~= before.luns.update(l as int, lun.model()));
                    return Ok(pba);
                }
            }
            assert(lun.model() =~= before.lun_block_step(l as int).0);
            assert(lun.free_in_range());
            self.luns[l] = lun;
            assert(self.model().luns =~= before.luns.update(l as int, lun.model()));
            step = step + 1;
        }
        return Err(ProvisionError::NoFreeBlock);
    }

    /// Tries the LUNs in round-robin order for a page: the next unused page of a partly
    /// written block, or page 0 of a good free block, which becomes partly written.
    fn provison_page(&mut self) -> (r: Result<PhysicalPageAddress, ProvisionError>)
        requires
            old(self).wf(),
        ensures
            final(self).wf(),
            final(self).channel_id == old(self).channel_id,
            final(self).bbt == old(self).bbt,
            ({
                let (after, granted) = old(self).model().page_scan(0);
                &&& final(self).model() == after
                &&& match granted {
                    Some(ppa) => r == Ok::<PhysicalPageAddress, ProvisionError>(ppa),
                    None => r == Err::<PhysicalPageAddress, ProvisionError>(ProvisionError::NoFreePage),
                }
            }),
    {
        let mut step: usize = 0;
        while step < self.luns.len()
            invariant
                step <= LUNS_PER_CHANNEL,
                self.wf(),
                self.channel_id == old(self).channel_id,
                self.bbt == old(self).bbt,
                self.model().page_scan(step as nat) == old(self).model().page_scan(0),
            decreases LUNS_PER_CHANNEL - step,
        {
            let ghost before = self.model();
            self.last_lun_picked = (self.last_lun_picked + 1) % self.luns.len();
            let lun_id = self.last_lun_picked;
            let mut lun = self.luns[lun_id];
            let ghost lun0 = lun;
            let ghost step_result = before.lun_page_step(lun_id as int);
            if let Some(mut block) = lun.partially_used.pop() {
                let ghost pb = block.model();
                assert(lun0.model().partially_used[0] == pb);
                assert(Seq::new(PAGES_PER_BLOCK as nat, |k: int| block.pages@[k].in_use) =~= pb.2);
                let idx = first_unused_page(&block.pages, 0);
                if idx < PAGES_PER_BLOCK {
                    let more_unused = first_unused_page(&block.pages, idx + 1) < PAGES_PER_BLOCK;
                    block.pages[idx].in_use = true;
                    if !more_unused {
                        let _ = lun.used.push(Block { id: block.id, plane_id: block.plane_id });
                    } else {
                        let _ = lun.partially_used.push(block);
                        assert(block.model().2 =~= pb.2.update(idx as int, true));
                    }
                    assert(lun.model() =~= step_result.0);
                    proof { LUN::lemma_free_in_range_after_pop(lun0, lun); }
                    self.luns[lun_id] = lun;
                    assert(self.model().luns =~= before.luns.update(lun_id as int, lun.model()));
                    let ppa = PhysicalPageAddress {
                        channel_id: self.channel_id,
                        lun_id: lun_id,
                        plane_id: block.plane_id,
                        block_id: block.id,
                        page_id: idx,
                    };
                    return Ok(ppa);
                }
                assert(lun.model() =~= step_result.0);
            } else if let Some(block) = lun.free.pop() {
                let pba = PhysicalBlockAddress {
                    channel_id: self.channel_id,
                    lun_id: lun_id,
                    plane_id: block.plane_id,
                    block_id: block.id,
                };
                assert(lun0.free_in_range());
                assert(lun0.free@[0] == block);
                if let BlockStatus::Good = self.bbt.get_block_status(&pba) {
                    let mut block_with_page_info = BlockWithPageInfo {
                        id: block.id,
                        plane_id: block.plane_id,
                        pages: [Page { in_use: false }; PAGES_PER_BLOCK],
                    };
                    block_with_page_info.pages[0] = Page { in_use: true };
                    let _ = lun.partially_used.push(block_with_page_info);
                    assert(block_with_page_info.model().2 =~= opened_block_pages());
                    assert(lun.model() =~= step_result.0);
                    self.luns[lun_id] = lun;
                    assert(self.model().luns =~= before.luns.update(lun_id as int, lun.model()));
                    let ppa = PhysicalPageAddress {
                        channel_id: self.channel_id,
                        lun_id: lun_id,
                        plane_id: block.plane_id,
                        block_id: block.id,
                        page_id: 0,
                    };
                    return Ok(ppa);
                }
                assert(lun.model() =~= step_result.0);
            } else {
                assert(lun.model() =~= step_result.0);
            }
            proof { LUN::lemma_free_in_range_after_pop(lun0, lun); }
            self.luns[lun_id] = lun;
            assert(self.model().luns =~= before.luns.update(lun_id as int, lun.model()));
            step = step + 1;
        }
        return Err(ProvisionError::NoFreePage);
    }
}

/// With empty lists no LUN offers a block or a page, and the lists stay empty.
pub proof fn lemma_empty_channel_grants_nothing(ch: CheckedChannelModel, k: nat)
    requires
        ch.luns.len() == LUNS_PER_CHANNEL,
        ch.lists_empty(),
    ensures
        ch.block_scan(k).1 is None,
        ch.block_scan(k).0.lists_empty(),
        ch.block_scan(k).0.luns.len() == LUNS_PER_CHANNEL,
        ch.page_scan(k).1 is None,
        ch.page_scan(k).0.lists_empty(),
        ch.page_scan(k).0.luns.len() == LUNS_PER_CHANNEL,
    decreases LUNS_PER_CHANNEL - k,
{
    if k < LUNS_PER_CHANNEL {
        let l = (ch.last_lun_picked + 1) % (LUNS_PER_CHANNEL as int);
        assert(ch.luns[l].free.len() == 0);
        let nb = CheckedChannelModel {
            luns: ch.luns.update(l, ch.lun_block_step(l).0),
            last_lun_picked: l as usize,
            ..ch
        };
        assert(nb.luns =~= ch.luns);
        lemma_empty_channel_grants_nothing(nb, k + 1);
        let np = CheckedChannelModel {
            luns: ch.luns.update(l, ch.lun_page_step(l).0),
            last_lun_picked: l as usize,
            ..ch
        };
        assert(np.luns =~= ch.luns);
        lemma_empty_channel_grants_nothing(np, k + 1);
    }
}

impl GlobalProvisoner {
    /// The lists, round-robin positions and tables of all channels.
    pub closed spec fn model(self) -> CheckedProvisionerModel {
        CheckedProvisionerModel {
            channels: Seq::new(N_CHANNELS as nat, |c: int| self.channel_provisioners@[c].model()),
            last_channel_provisioned: self.last_channel_provisioned as int,
        }
    }

    /// The round-robin position names a channel and every channel provisioner is well formed.
    pub closed spec fn wf(self) -> bool {
        &&& self.last_channel_provisioned < N_CHANNELS
        &&& forall|c: int| 0 <= c < N_CHANNELS ==> (#[trigger] self.channel_provisioners@[c]).wf()
    }

    /// A provisioner with empty lists whose channel `i` uses table `bbts[i]`.
    pub fn new(bbts: [ChannelBadBlockTable; N_CHANNELS]) -> (p: Self)
        ensures
            p.wf(),
            p.model().lists_empty(),
            p.model().last_channel_provisioned == 0,
            forall|c: int| 0 <= c < N_CHANNELS ==> {
                &&& (#[trigger] p.model().channels[c]).bbt == bbts@[c]
                &&& p.model().channels[c].channel_id == c
                &&& p.model().channels[c].last_lun_picked == 0
            },
    {
        let mut channel_provisioners = [ChannelProvisioner::new(0, bbts[0]); N_CHANNELS];
        let mut id: usize = 0;
        while id < N_CHANNELS
            invariant
                id <= N_CHANNELS,
                forall|c: int| 0 <= c < N_CHANNELS ==> (#[trigger] channel_provisioners@[c]).wf(),
                forall|c: int| 0 <= c < N_CHANNELS ==> (#[trigger] channel_provisioners@[c]).model().lists_empty(),
                forall|c: int| 0 <= c < N_CHANNELS ==> (#[trigger] channel_provisioners@[c]).last_lun_picked == 0,
                forall|c: int| 0 <= c < id ==> (#[trigger] channel_provisioners@[c]).bbt == bbts@[c]
                    && channel_provisioners@[c].channel_id == c,
            decreases N_CHANNELS - id,
        {
            channel_provisioners[id] = ChannelProvisioner::new(id, bbts[id]);
            id = id + 1;
        }
        let p = GlobalProvisoner { channel_provisioners, last_channel_provisioned: 0 };
        assert forall|c: int| 0 <= c < N_CHANNELS implies (#[trigger] p.model().channels[c]).lists_empty() by {
            assert(p.model().channels[c] == p.channel_provisioners@[c].model());
        }
        p
    }

    /// Moves to the next channel and asks it for a good free block.
    pub fn provision_block(&mut self) -> (r: Result<PhysicalBlockAddress, ProvisionError>)
        requires
            old(self).wf(),
        ensures
            final(self).wf(),
            ({
                let (after, granted) = old(self).model().block_request();
                &&& final(self).model() == after
                &&& match granted {
                    Some(pba) => r == Ok::<PhysicalBlockAddress, ProvisionError>(pba),
                    None => r == Err::<PhysicalBlockAddress, ProvisionError>(ProvisionError::NoFreeBlock),
                }
            }),
    {
        let ghost before = self.model();
        self.last_channel_provisioned = (self.last_channel_provisioned + 1) % self.channel_provisioners.len();
        let c = self.last_channel_provisioned;
        let mut channel_provisoner = self.channel_provisioners[c];
        let r = channel_provisoner.provision_block();
        self.channel_provisioners[c] = channel_provisoner;
        assert(self.model().channels =~= before.channels.update(c as int, channel_provisoner.model()));
        r
    }

    /// Moves to the next channel and asks it for a free page.
    pub fn provison_page(&mut self) -> (r: Result<PhysicalPageAddress, ProvisionError>)
        requires
            old(self).wf(),
        ensures
            final(self).wf(),
            ({
                let (after, granted) = old(self).model().page_request();
                &&& final(self).model() == after
                &&& match granted {
                    Some(ppa) => r == Ok::<PhysicalPageAddress, ProvisionError>(ppa),
                    None => r == Err::<PhysicalPageAddress, ProvisionError>(ProvisionError::NoFreePage),
                }
            }),
    {
        let ghost before = self.model();
        self.last_channel_provisioned = (self.last_channel_provisioned + 1) % self.channel_provisioners.len();
        let c = self.last_channel_provisioned;
        let mut channel_provisoner = self.channel_provisioners[c];
        let r = channel_provisoner.provison_page();
        self.channel_provisioners[c] = channel_provisoner;
        assert(self.model().channels =~= before.channels.update(c as int, channel_provisoner.model()));
        r
    }
}

/// A provisioner whose lists are empty grants no block and no page, and its lists stay
/// empty. Nothing puts blocks on the lists of a provisioner built by `new`, so such a
/// provisioner never grants anything.
pub proof fn lemma_empty_provisioner_grants_nothing(p: CheckedProvisionerModel)
    requires
        p.channels.len() == N_CHANNELS,
        0 <= p.last_channel_provisioned,
        forall|c: int| 0 <= c < N_CHANNELS ==> (#[trigger] p.channels[c]).luns.len() == LUNS_PER_CHANNEL,
        p.lists_empty(),
    ensures
        p.block_request().1 is None,
        p.block_request().0.lists_empty(),
        p.page_request().1 is None,
        p.page_request().0.lists_empty(),
{
    let c = p.next_channel();
    lemma_empty_channel_grants_nothing(p.channels[c], 0);
    assert forall|d: int| 0 <= d < N_CHANNELS implies (#[trigger] p.block_request().0.channels[d]).lists_empty() by {
        if d != c {
            assert(p.block_request().0.channels[d] == p.channels[d]);
        }
    }
    assert forall|d: int| 0 <= d < N_CHANNELS implies (#[trigger] p.page_request().0.channels[d]).lists_empty() by {
        if d != c {
            assert(p.page_request().0.channels[d] == p.channels[d]);
        }
    }
}

/// Only good blocks are handed out: on a channel whose used and partly written blocks
/// are all good, a block or page request grants a block, or a page of a block, that the
/// channel's table records as good and that is not block 0, and the used and partly
/// written blocks stay good.
pub proof fn lemma_channel_grants_good_blocks(ch: CheckedChannelModel, k: nat)
    requires
        ch.luns.len() == LUNS_PER_CHANNEL,
        ch.taken_blocks_good(),
    ensures
        ch.block_scan(k).0.taken_blocks_good(),
        ch.block_scan(k).0.bbt == ch.bbt,
        ch.block_scan(k).1 matches Some(pba) ==> pba.channel_id == ch.channel_id && ch.good(
            pba.lun_id as int,
            pba.plane_id,
            pba.block_id,
        ),
        ch.page_scan(k).0.taken_blocks_good(),
        ch.page_scan(k).0.bbt == ch.bbt,
        ch.page_scan(k).1 matches Some(ppa) ==> ppa.channel_id == ch.channel_id && ch.good(
            ppa.lun_id as int,
            ppa.plane_id,
            ppa.block_id,
        ),
    decreases LUNS_PER_CHANNEL - k,
{
    if k < LUNS_PER_CHANNEL {
        let l = (ch.last_lun_picked + 1) % (LUNS_PER_CHANNEL as int);
        let lun = ch.luns[l];
        let (blun, granted_block) = ch.lun_block_step(l);
        let nb = CheckedChannelModel { luns: ch.luns.update(l, blun), last_lun_picked: l as usize, ..ch };
        assert(nb.taken_blocks_good()) by {
            assert forall|m: int, i: int| 0 <= m < LUNS_PER_CHANNEL && 0 <= i < nb.luns[m].used.len() implies nb.good(
                m,
                (#[trigger] nb.luns[m].used[i]).1,
                nb.luns[m].used[i].0,
            ) by {
                if m == l && i < lun.used.len() {
                    assert(nb.luns[m].used[i] == lun.used[i]);
                }
            }
        }
        if granted_block is None {
            lemma_channel_grants_good_blocks(nb, k + 1);
        }
        let (plun, granted_page) = ch.lun_page_step(l);
        let np = CheckedChannelModel { luns: ch.luns.update(l, plun), last_lun_picked: l as usize, ..ch };
        assert(np.taken_blocks_good()) by {
            assert forall|m: int, i: int| 0 <= m < LUNS_PER_CHANNEL && 0 <= i < np.luns[m].used.len() implies np.good(
                m,
                (#[trigger] np.luns[m].used[i]).1,
                np.luns[m].used[i].0,
            ) by {
                if m == l && i < lun.used.len() {
                    assert(np.luns[m].used[i] == lun.used[i]);
                }
            }
            assert forall|m: int, i: int|
                0 <= m < LUNS_PER_CHANNEL && 0 <= i < np.luns[m].partially_used.len() implies np.good(
                m,
                (#[trigger] np.luns[m].partially_used[i]).1,
                np.luns[m].partially_used[i].0,
            ) by {
                if m == l && lun.partially_used.len() > 0 && i < lun.partially_used.len() - 1 {
                    assert(np.luns[m].partially_used[i] == lun.partially_used[i + 1]);
                }
            }
        }
        if granted_page is None {
            lemma_channel_grants_good_blocks(np, k + 1);
        }
    }
}

} // verus!
