use vstd::prelude::*;

use crate::config::{
    BLOCKS_PER_LUN, BLOCKS_PER_PLANE, LUNS_PER_CHANNEL, N_CHANNELS, PAGES_PER_BLOCK, PLANES_PER_LUN,
};
use crate::device::address::{PhysicalBlockAddress, PhysicalPageAddress};
use crate::utils::ring_buffer::{RingBuffer, RingBufferError};

verus! {

/// Hands out free blocks and pages, visiting channels and, within a channel, LUNs in
/// round-robin order so that consecutive requests land on different units.
pub struct Provisioner {
    pub channel_provisioners: [ChannelProvisioner; N_CHANNELS],
    last_channel_provisioned: usize,
}

/// The block lists of every LUN of one channel.
#[derive(Copy, Clone)]
pub struct ChannelProvisioner {
    pub luns: [LUN; LUNS_PER_CHANNEL],
    pub last_lun_picked: usize,
    pub channel_id: usize,
}

/// The blocks of one LUN: free, fully used, and partly written.
#[derive(Copy, Clone)]
pub struct LUN {
    pub free: RingBuffer<Block, BLOCKS_PER_LUN>,
    pub used: RingBuffer<Block, BLOCKS_PER_LUN>,
    pub partially_used: RingBuffer<BlockWithPageInfo, BLOCKS_PER_LUN>,
}

#[derive(Copy, Clone, Debug, PartialEq, Eq, Structural)]
pub struct Block {
    pub id: usize,
    pub plane_id: usize,
}

#[derive(Copy, Clone)]
pub struct BlockWithPageInfo {
    pub id: usize,
    pub plane_id: usize,
    pub pages: [Page; PAGES_PER_BLOCK],
}

#[derive(Copy, Clone, PartialEq, Eq, Structural, Debug)]
pub enum Page {
    InUse,
    Free,
}

#[derive(Debug, PartialEq)]
pub enum ProvisionError<'s> {
    NoFreeBlock,
    NoFreePage,
    BlockErr(&'s str),
}

// ---------------------------------------------------------------------------------
// Mathematical model
// ---------------------------------------------------------------------------------

/// A partly written block: its address within the LUN and the state of each page.
#[verifier::ext_equal]
pub struct PagedBlock {
    pub id: usize,
    pub plane_id: usize,
    pub pages: Seq<Page>,
}

/// The three block lists of a LUN, front of each list first.
#[verifier::ext_equal]
pub struct LunModel {
    pub free: Seq<Block>,
    pub used: Seq<Block>,
    pub partially_used: Seq<PagedBlock>,
}

/// A channel: the lists of each of its LUNs and its round-robin position.
#[verifier::ext_equal]
pub struct ChannelModel {
    pub luns: Seq<LunModel>,
    pub last_lun_picked: usize,
    pub channel_id: usize,
}

/// What one LUN contributes to a block request.
pub enum LunBlockStep {
    /// The LUN has no free block.
    Skip,
    /// The front free block was moved to the used list.
    Granted(Block),
    /// The front free block was taken but the used list was full.
    UsedFull,
}

/// What a channel answers to a block request.
pub enum ChannelBlockOutcome {
    NoFreeBlock,
    UsedFull,
    Granted(PhysicalBlockAddress),
}

/// All channels' lists and the provisioner's round-robin position.
#[verifier::ext_equal]
pub struct ProvisionerModel {
    pub channels: Seq<ChannelModel>,
    pub last_channel_provisioned: int,
}

impl ProvisionerModel {
    /// The shape every provisioner has, lists within their capacity, and round-robin
    /// positions far enough from the top of `usize` that stepping past them cannot
    /// overflow.
    pub open spec fn wf(self) -> bool {
        &&& self.channels.len() == N_CHANNELS
        &&& 0 <= self.last_channel_provisioned < N_CHANNELS
        &&& forall|c: int| 0 <= c < N_CHANNELS ==> (#[trigger] self.channels[c]).wf()
    }

    /// A page request that tries the channels from the `i`-th in turn onwards; the
    /// answer names the channel that granted the page.
    pub open spec fn page_scan(self, i: nat) -> (ProvisionerModel, Option<(int, PhysicalPageAddress)>)
        decreases N_CHANNELS - i,
    {
        if i >= N_CHANNELS {
            (self, None)
        } else {
            let c = channel_in_turn(self.last_channel_provisioned, i as int);
            let (ch, outcome) = self.channels[c].page_scan(0);
            let next = ProvisionerModel { channels: self.channels.update(c, ch), ..self };
            match outcome {
                ChannelPageOutcome::Granted(ppa) => (
                    ProvisionerModel { last_channel_provisioned: c, ..next },
                    Some((c, ppa)),
                ),
                _ => next.page_scan(i + 1),
            }
        }
    }

    /// The lists after appending `b` to the free list of LUN `l` of channel `c`.
    pub open spec fn push_free(self, c: int, l: int, b: Block) -> ProvisionerModel {
        let ch = self.channels[c];
        let lun = ch.luns[l];
        ProvisionerModel {
            channels: self.channels.update(
                c,
                ch.with_lun(l, LunModel { free: lun.free.push(b), ..lun }),
            ),
            ..self
        }
    }

    /// Every address the lists can produce lies within the device geometry: channel
    /// ids and round-robin positions are in range, and so is every listed block.
    pub open spec fn addresses_valid(self) -> bool {
        forall|c: int| 0 <= c < N_CHANNELS ==> (#[trigger] self.channels[c]).addresses_valid()
    }

    /// A block request that tries the channels from the `i`-th in turn onwards; the
    /// answer names the channel that granted the block.
    pub open spec fn block_scan(self, i: nat) -> (ProvisionerModel, Option<(int, PhysicalBlockAddress)>)
        decreases N_CHANNELS - i,
    {
        if i >= N_CHANNELS {
            (self, None)
        } else {
            let c = channel_in_turn(self.last_channel_provisioned, i as int);
            let (ch, outcome) = self.channels[c].block_scan(0);
            let next = ProvisionerModel { channels: self.channels.update(c, ch), ..self };
            match outcome {
                ChannelBlockOutcome::Granted(pba) => (
                    ProvisionerModel { last_channel_provisioned: c, ..next },
                    Some((c, pba)),
                ),
                _ => next.block_scan(i + 1),
            }
        }
    }
}

/// What one LUN contributes to a page request.
pub enum LunPageStep {
    /// The LUN offers no page (it may have dropped a partly written block with no free page).
    Skip,
    /// Page `.1` of block `.0` was handed out; `.2` tells whether the block came off the free list.
    Granted(Block, int, bool),
    /// The last page of a block was handed out but the used list was full.
    UsedFull,
}

/// What a channel answers to a page request.
pub enum ChannelPageOutcome {
    NoFreePage,
    UsedFull,
    Granted(PhysicalPageAddress),
}

/// The first free page of `pages` at index `j` or later, or `pages.len()` if there is none.
pub open spec fn first_free_from(pages: Seq<Page>, j: int) -> int
    decreases pages.len() - j,
{
    if j < 0 || j >= pages.len() {
        pages.len() as int
    } else if pages[j] == Page::Free {
        j
    } else {
        first_free_from(pages, j + 1)
    }
}

/// The page states of a block just taken off the free list: its first page in use.
pub open spec fn fresh_block_pages() -> Seq<Page> {
    Seq::new(PAGES_PER_BLOCK as nat, |k: int| if k == 0 { Page::InUse } else { Page::Free })
}

/// Whether some page of `pages` at index `start` or later is free.
pub fn has_free_page_from(pages: &[Page; PAGES_PER_BLOCK], start: usize) -> (r: bool)
    requires
        start <= PAGES_PER_BLOCK,
    ensures
        r == (first_free_from(pages@, start as int) < PAGES_PER_BLOCK),
{
    let mut k: usize = start;
    while k < PAGES_PER_BLOCK
        invariant
            start <= k <= PAGES_PER_BLOCK,
            pages@.len() == PAGES_PER_BLOCK,
            first_free_from(pages@, start as int) == first_free_from(pages@, k as int),
        decreases PAGES_PER_BLOCK - k,
    {
        if pages[k] == Page::Free {
            return true;
        }
        k = k + 1;
    }
    false
}

impl PagedBlock {
    /// The index of the first free page, or the number of pages if all are in use.
    pub open spec fn first_free(self) -> int {
        first_free_from(self.pages, 0)
    }
}

impl BlockWithPageInfo {
    pub open spec fn model(self) -> PagedBlock {
        PagedBlock { id: self.id, plane_id: self.plane_id, pages: self.pages@ }
    }
}

impl LUN {
    pub open spec fn model(self) -> LunModel {
        LunModel {
            free: self.free@,
            used: self.used@,
            partially_used: self.partially_used@.map_values(|b: BlockWithPageInfo| b.model()),
        }
    }
}

/// The LUN visited `i`-th by a channel whose last pick was `last`.
pub open spec fn lun_in_turn(last: int, i: int) -> int {
    (last + 1 + i) % (LUNS_PER_CHANNEL as int)
}

/// The channel visited `i`-th by a provisioner whose last pick was `last`.
pub open spec fn channel_in_turn(last: int, i: int) -> int {
    (last + 1 + i) % (N_CHANNELS as int)
}

impl LunModel {
    /// Taking a block for a block request: the front free block moves to the used list.
    pub open spec fn block_step(self) -> (LunModel, LunBlockStep) {
        if self.free.len() == 0 {
            (self, LunBlockStep::Skip)
        } else {
            let b = self.free[0];
            if self.used.len() < BLOCKS_PER_LUN {
                (
                    LunModel { free: self.free.drop_first(), used: self.used.push(b), ..self },
                    LunBlockStep::Granted(b),
                )
            } else {
                (LunModel { free: self.free.drop_first(), ..self }, LunBlockStep::UsedFull)
            }
        }
    }
}

impl LunModel {
    /// Taking a page for a page request. The front partly written block gives its first
    /// free page, going to the used list once no page of it stays free and back to the
    /// end of the partly written list otherwise; a front block with no free page is dropped.
    /// With no partly written block, the front free block becomes partly written and
    /// gives its first page.
    pub open spec fn page_step(self) -> (LunModel, LunPageStep) {
        if self.partially_used.len() > 0 {
            let b = self.partially_used[0];
            let j = b.first_free();
            let rest = self.partially_used.drop_first();
            let blk = Block { id: b.id, plane_id: b.plane_id };
            if j >= b.pages.len() {
                (LunModel { partially_used: rest, ..self }, LunPageStep::Skip)
            } else if first_free_from(b.pages, j + 1) >= b.pages.len() {
                if self.used.len() < BLOCKS_PER_LUN {
                    (
                        LunModel { partially_used: rest, used: self.used.push(blk), ..self },
                        LunPageStep::Granted(blk, j, false),
                    )
                } else {
                    (LunModel { partially_used: rest, ..self }, LunPageStep::UsedFull)
                }
            } else {
                let marked = PagedBlock { pages: b.pages.update(j, Page::InUse), ..b };
                (
                    LunModel { partially_used: rest.push(marked), ..self },
                    LunPageStep::Granted(blk, j, false),
                )
            }
        } else if self.free.len() > 0 {
            let f = self.free[0];
            let fresh = PagedBlock { id: f.id, plane_id: f.plane_id, pages: fresh_block_pages() };
            (
                LunModel {
                    free: self.free.drop_first(),
                    partially_used: seq![fresh],
                    ..self
                },
                LunPageStep::Granted(f, 0, true),
            )
        } else {
            (self, LunPageStep::Skip)
        }
    }
}

/// A block whose address within its LUN lies within the device geometry.
pub open spec fn block_in_range(b: Block) -> bool {
    b.plane_id < PLANES_PER_LUN && b.id < BLOCKS_PER_PLANE
}

impl PagedBlock {
    pub open spec fn in_range(self) -> bool {
        &&& self.plane_id < PLANES_PER_LUN
        &&& self.id < BLOCKS_PER_PLANE
        &&& self.pages.len() == PAGES_PER_BLOCK
    }
}

impl LunModel {
    /// Every listed block lies within the device geometry.
    pub open spec fn addresses_valid(self) -> bool {
        &&& forall|k: int| 0 <= k < self.free.len() ==> block_in_range(#[trigger] self.free[k])
        &&& forall|k: int| 0 <= k < self.used.len() ==> block_in_range(#[trigger] self.used[k])
        &&& forall|k: int|
            0 <= k < self.partially_used.len() ==> (#[trigger] self.partially_used[k]).in_range()
    }
}

impl LunModel {
    /// No list holds more blocks than its capacity.
    pub open spec fn bounded(self) -> bool {
        &&& self.free.len() <= BLOCKS_PER_LUN
        &&& self.used.len() <= BLOCKS_PER_LUN
        &&& self.partially_used.len() <= BLOCKS_PER_LUN
    }
}

impl ChannelModel {
    /// One model per LUN, lists within capacity, and a round-robin position from which
    /// stepping through the LUNs cannot overflow.
    pub open spec fn wf(self) -> bool {
        &&& self.luns.len() == LUNS_PER_CHANNEL
        &&& self.last_lun_picked + LUNS_PER_CHANNEL <= usize::MAX
        &&& forall|l: int| 0 <= l < LUNS_PER_CHANNEL ==> (#[trigger] self.luns[l]).bounded()
    }

    /// The channel id, the round-robin position and every listed block are in range.
    pub open spec fn addresses_valid(self) -> bool {
        &&& self.channel_id < N_CHANNELS
        &&& self.last_lun_picked < LUNS_PER_CHANNEL
        &&& self.luns.len() == LUNS_PER_CHANNEL
        &&& forall|l: int| 0 <= l < LUNS_PER_CHANNEL ==> (#[trigger] self.luns[l]).addresses_valid()
    }

    /// A page request that tries the LUNs from the `i`-th in turn onwards.
    pub open spec fn page_scan(self, i: nat) -> (ChannelModel, ChannelPageOutcome)
        decreases LUNS_PER_CHANNEL - i,
    {
        if i >= LUNS_PER_CHANNEL {
            (self, ChannelPageOutcome::NoFreePage)
        } else {
            let l = lun_in_turn(self.last_lun_picked as int, i as int);
            let (lun, step) = self.luns[l].page_step();
            let next = self.with_lun(l, lun);
            match step {
                LunPageStep::Skip => next.page_scan(i + 1),
                LunPageStep::UsedFull => (next, ChannelPageOutcome::UsedFull),
                LunPageStep::Granted(b, j, from_free) => (
                    ChannelModel { last_lun_picked: l as usize, ..next },
                    ChannelPageOutcome::Granted(
                        PhysicalPageAddress {
                            channel_id: self.channel_id,
                            lun_id: l as usize,
                            plane_id: b.plane_id,
                            block_id: b.id,
                            page_id: j as usize,
                        },
                    ),
                ),
            }
        }
    }

    pub open spec fn with_lun(self, l: int, lun: LunModel) -> ChannelModel {
        ChannelModel { luns: self.luns.update(l, lun), ..self }
    }

    /// A block request that tries the LUNs from the `i`-th in turn onwards.
    pub open spec fn block_scan(self, i: nat) -> (ChannelModel, ChannelBlockOutcome)
        decreases LUNS_PER_CHANNEL - i,
    {
        if i >= LUNS_PER_CHANNEL {
            (self, ChannelBlockOutcome::NoFreeBlock)
        } else {
            let l = lun_in_turn(self.last_lun_picked as int, i as int);
            let (lun, step) = self.luns[l].block_step();
            let next = self.with_lun(l, lun);
            match step {
                LunBlockStep::Skip => next.block_scan(i + 1),
                LunBlockStep::UsedFull => (next, ChannelBlockOutcome::UsedFull),
                LunBlockStep::Granted(b) => (
                    ChannelModel { last_lun_picked: l as usize, ..next },
                    ChannelBlockOutcome::Granted(
                        PhysicalBlockAddress {
                            channel_id: self.channel_id,
                            lun_id: l as usize,
                            plane_id: b.plane_id,
                            block_id: b.id,
                        },
                    ),
                ),
            }
        }
    }
}

impl Provisioner {
    pub closed spec fn model(self) -> ProvisionerModel {
        ProvisionerModel {
            channels: Seq::new(N_CHANNELS as nat, |c: int| self.channel_provisioners@[c].model()),
            last_channel_provisioned: self.last_channel_provisioned as int,
        }
    }

    /// An empty provisioner; channel `i` is handled by the `i`-th channel provisioner.
    pub fn new() -> (p: Self)
        ensures
            p.model().wf(),
            p.model().addresses_valid(),
            p.model().last_channel_provisioned == 0,
            forall|c: int| 0 <= c < N_CHANNELS ==> {
                let ch = #[trigger] p.model().channels[c];
                &&& ch.channel_id == c
                &&& ch.last_lun_picked == 0
                &&& forall|l: int| 0 <= l < LUNS_PER_CHANNEL ==> {
                    &&& (#[trigger] ch.luns[l]).free.len() == 0
                    &&& ch.luns[l].used.len() == 0
                    &&& ch.luns[l].partially_used.len() == 0
                }
            },
    {
        let p = Provisioner {
            channel_provisioners: generate_channel_provisioners(),
            last_channel_provisioned: 0,
        };
        assert forall|c: int| 0 <= c < N_CHANNELS implies {
            let ch = #[trigger] p.model().channels[c];
            &&& ch.channel_id == c
            &&& ch.last_lun_picked == 0
            &&& ch.luns.len() == LUNS_PER_CHANNEL
            &&& forall|l: int| 0 <= l < LUNS_PER_CHANNEL ==> {
                &&& (#[trigger] ch.luns[l]).free.len() == 0
                &&& ch.luns[l].used.len() == 0
                &&& ch.luns[l].partially_used.len() == 0
            }
        } by {
            let cp = p.channel_provisioners@[c];
            assert forall|l: int| 0 <= l < LUNS_PER_CHANNEL implies {
                &&& (#[trigger] p.model().channels[c].luns[l]).free.len() == 0
                &&& p.model().channels[c].luns[l].used.len() == 0
                &&& p.model().channels[c].luns[l].partially_used.len() == 0
            } by {
                assert(cp.luns@[l].partially_used@ == Seq::<BlockWithPageInfo>::empty());
            }
        }
        p
    }

    /// Takes a free block from the first channel, in round-robin order, that grants one.
    /// A channel that fails is passed over.
    pub fn provision_block(&mut self) -> (r: Result<PhysicalBlockAddress, ProvisionError>)
        requires
            old(self).model().wf(),
        ensures
            final(self).model().wf(),
            ({
                let (after, found) = old(self).model().block_scan(0);
                &&& final(self).model() == after
                &&& match found {
                    None => r == Err::<PhysicalBlockAddress, ProvisionError>(ProvisionError::NoFreeBlock),
                    Some((c, pba)) => r == Ok::<PhysicalBlockAddress, ProvisionError>(pba),
                }
            }),
            old(self).model().addresses_valid() ==> final(self).model().addresses_valid(),
    {
        proof {
            if self.model().addresses_valid() {
                lemma_block_scan_in_range(self.model(), 0);
            }
        }
        let mut i: usize = 0;
        while i < self.channel_provisioners.len()
            invariant
                0 <= i <= N_CHANNELS,
                self.last_channel_provisioned == old(self).last_channel_provisioned,
                self.model().wf(),
                self.model().block_scan(i as nat) == old(self).model().block_scan(0),
                old(self).model().addresses_valid() ==> old(self).model().block_scan(0).0.addresses_valid(),
            decreases N_CHANNELS - i,
        {
            let ch_idx = (self.last_channel_provisioned + 1 + i) % self.channel_provisioners.len();
            let ghost before = self.model();
            let mut channel_provisoner = self.channel_provisioners[ch_idx];
            proof {
                assert(before.channels[ch_idx as int] == channel_provisoner.model());
                lemma_channel_block_scan_wf(channel_provisoner.model(), 0);
            }
            let granted = match channel_provisoner.provision_block() {
                Ok(pba) => Some(pba),
                Err(_) => None,
            };
            self.channel_provisioners[ch_idx] = channel_provisoner;
            assert(self.model().channels =~= before.channels.update(ch_idx as int, channel_provisoner.model()));
            if let Some(pba) = granted {
                self.last_channel_provisioned = ch_idx;
                return Ok(pba);
            }
            i = i + 1;
        }
        Err(ProvisionError::NoFreeBlock)
    }

    /// Hands out a free page from the first channel, in round-robin order, that grants
    /// one. A channel that fails is passed over.
    pub fn provision_page(&mut self) -> (r: Result<PhysicalPageAddress, ProvisionError>)
        requires
            old(self).model().wf(),
        ensures
            final(self).model().wf(),
            ({
                let (after, found) = old(self).model().page_scan(0);
                &&& final(self).model() == after
                &&& match found {
                    None => r == Err::<PhysicalPageAddress, ProvisionError>(ProvisionError::NoFreePage),
                    Some((c, ppa)) => r == Ok::<PhysicalPageAddress, ProvisionError>(ppa),
                }
            }),
            old(self).model().addresses_valid() ==> final(self).model().addresses_valid() && (r matches Ok(
                ppa,
            ) ==> ppa.valid()),
    {
        proof {
            if self.model().addresses_valid() {
                lemma_page_scan_in_range(self.model(), 0);
            }
        }
        let mut i: usize = 0;
        while i < self.channel_provisioners.len()
            invariant
                0 <= i <= N_CHANNELS,
                self.last_channel_provisioned == old(self).last_channel_provisioned,
                self.model().wf(),
                self.model().page_scan(i as nat) == old(self).model().page_scan(0),
                old(self).model().addresses_valid() ==> old(self).model().page_scan(0).0.addresses_valid()
                    && (old(self).model().page_scan(0).1 matches Some((c, ppa)) ==> ppa.valid()),
            decreases N_CHANNELS - i,
        {
            let ch_idx = (self.last_channel_provisioned + 1 + i) % self.channel_provisioners.len();
            let ghost before = self.model();
            let mut channel_provisoner = self.channel_provisioners[ch_idx];
            proof {
                assert(before.channels[ch_idx as int] == channel_provisoner.model());
                lemma_channel_page_scan_wf(channel_provisoner.model(), 0);
            }
            let granted = match channel_provisoner.provision_page() {
                Ok(ppa) => Some(ppa),
                Err(_) => None,
            };
            self.channel_provisioners[ch_idx] = channel_provisoner;
            assert(self.model().channels =~= before.channels.update(ch_idx as int, channel_provisoner.model()));
            if let Some(ppa) = granted {
                self.last_channel_provisioned = ch_idx;
                return Ok(ppa);
            }
            i = i + 1;
        }
        Err(ProvisionError::NoFreePage)
    }

    /// Appends the block at `pba` to the free list of its channel and LUN; fails,
    /// changing nothing, when that list is full.
    pub fn push_free_block(&mut self, pba: &PhysicalBlockAddress) -> (r: Result<(), RingBufferError>)
        requires
            old(self).model().wf(),
            pba.channel_id < N_CHANNELS,
            pba.lun_id < LUNS_PER_CHANNEL,
        ensures
            final(self).model().wf(),
            ({
                let free = old(self).model().channels[pba.channel_id as int].luns[pba.lun_id as int].free;
                if free.len() < BLOCKS_PER_LUN {
                    &&& r == Ok::<(), RingBufferError>(())
                    &&& final(self).model() == old(self).model().push_free(
                        pba.channel_id as int,
                        pba.lun_id as int,
                        Block { id: pba.block_id, plane_id: pba.plane_id },
                    )
                } else {
                    &&& r == Err::<(), RingBufferError>(RingBufferError::PushAtMaxCapacity)
                    &&& final(self).model() == old(self).model()
                }
            }),
            old(self).model().addresses_valid() && pba.plane_id < PLANES_PER_LUN && pba.block_id
                < BLOCKS_PER_PLANE ==> final(self).model().addresses_valid(),
    {
        let ghost before = self.model();
        let mut channel_provisoner = self.channel_provisioners[pba.channel_id];
        let ghost ch_before = channel_provisoner.model();
        let mut lun = channel_provisoner.luns[pba.lun_id];
        let ghost lun_before = lun.model();
        let res = lun.free.push(Block { id: pba.block_id, plane_id: pba.plane_id });
        channel_provisoner.luns[pba.lun_id] = lun;
        assert(channel_provisoner.model().luns =~= ch_before.luns.update(pba.lun_id as int, lun.model()));
        self.channel_provisioners[pba.channel_id] = channel_provisoner;
        assert(self.model().channels =~= before.channels.update(
            pba.channel_id as int,
            channel_provisoner.model(),
        ));
        proof {
            let b = Block { id: pba.block_id, plane_id: pba.plane_id };
            if res is Ok {
                assert(lun.model() =~= LunModel { free: lun_before.free.push(b), ..lun_before });
                assert(channel_provisoner.model() =~= ch_before.with_lun(
                    pba.lun_id as int,
                    LunModel { free: lun_before.free.push(b), ..lun_before },
                ));
                assert(self.model() =~= before.push_free(pba.channel_id as int, pba.lun_id as int, b));
            } else {
                assert(lun.model() =~= lun_before);
                assert(channel_provisoner.model().luns =~= ch_before.luns);
                assert(self.model().channels =~= before.channels);
            }
        }
        res
    }
}

/// One empty channel provisioner per channel, the one at index `i` for channel `i`.
fn generate_channel_provisioners() -> (arr: [ChannelProvisioner; N_CHANNELS])
    ensures
        forall|c: int| 0 <= c < N_CHANNELS ==> {
            &&& (#[trigger] arr@[c]).channel_id == c
            &&& arr@[c].last_lun_picked == 0
            &&& forall|l: int| 0 <= l < LUNS_PER_CHANNEL ==> {
                &&& (#[trigger] arr@[c].luns@[l]).free@ == Seq::<Block>::empty()
                &&& arr@[c].luns@[l].used@ == Seq::<Block>::empty()
                &&& arr@[c].luns@[l].partially_used@ == Seq::<BlockWithPageInfo>::empty()
            }
        },
{
    let mut arr = [ChannelProvisioner::new(0); N_CHANNELS];
    let mut i: usize = 0;
    while i < N_CHANNELS
        invariant
            i <= N_CHANNELS,
            forall|c: int| 0 <= c < N_CHANNELS ==> {
                &&& (#[trigger] arr@[c]).channel_id == (if c < i { c } else { 0 })
                &&& arr@[c].last_lun_picked == 0
                &&& forall|l: int| 0 <= l < LUNS_PER_CHANNEL ==> {
                    &&& (#[trigger] arr@[c].luns@[l]).free@ == Seq::<Block>::empty()
                    &&& arr@[c].luns@[l].used@ == Seq::<Block>::empty()
                    &&& arr@[c].luns@[l].partially_used@ == Seq::<BlockWithPageInfo>::empty()
                }
            },
        decreases N_CHANNELS - i,
    {
        arr[i] = ChannelProvisioner::new(i);
        i += 1;
    }
    return arr;
}

impl ChannelProvisioner {
    pub open spec fn model(self) -> ChannelModel {
        ChannelModel {
            luns: Seq::new(LUNS_PER_CHANNEL as nat, |l: int| self.luns@[l].model()),
            last_lun_picked: self.last_lun_picked,
            channel_id: self.channel_id,
        }
    }

    /// An empty provisioner for channel `channel_id`.
    pub fn new(channel_id: usize) -> (cp: Self)
        ensures
            cp.channel_id == channel_id,
            cp.last_lun_picked == 0,
            forall|l: int| 0 <= l < LUNS_PER_CHANNEL ==> {
                &&& (#[trigger] cp.luns@[l]).free@ == Seq::<Block>::empty()
                &&& cp.luns@[l].used@ == Seq::<Block>::empty()
                &&& cp.luns@[l].partially_used@ == Seq::<BlockWithPageInfo>::empty()
            },
    {
        let lun = LUN {
            free: RingBuffer::new(),
            used: RingBuffer::new(),
            partially_used: RingBuffer::new(),
        };
        let luns = vstd::array::array_fill_for_copy_types::<LUN, LUNS_PER_CHANNEL>(lun);
        assert(forall|l: int| 0 <= l < LUNS_PER_CHANNEL ==> #[trigger] luns@[l] == lun);
        ChannelProvisioner { luns, last_lun_picked: 0, channel_id }
    }

    /// Takes the front free block of the first LUN, in round-robin order, that has one
    /// and moves it to that LUN's used list.
    pub fn provision_block(&mut self) -> (r: Result<PhysicalBlockAddress, ProvisionError>)
        requires
            old(self).last_lun_picked + LUNS_PER_CHANNEL <= usize::MAX,
        ensures
            final(self).channel_id == old(self).channel_id,
            final(self).last_lun_picked == old(self).last_lun_picked || final(self).last_lun_picked
                < LUNS_PER_CHANNEL,
            ({
                let (after, outcome) = old(self).model().block_scan(0);
                &&& final(self).model() == after
                &&& match outcome {
                    ChannelBlockOutcome::NoFreeBlock => r == Err::<PhysicalBlockAddress, ProvisionError>(
                        ProvisionError::NoFreeBlock,
                    ),
                    ChannelBlockOutcome::UsedFull => r == Err::<PhysicalBlockAddress, ProvisionError>(
                        ProvisionError::BlockErr("Could not push block to used."),
                    ),
                    ChannelBlockOutcome::Granted(pba) => r == Ok::<PhysicalBlockAddress, ProvisionError>(pba),
                }
            }),
    {
        let mut i: usize = 0;
        while i < self.luns.len()
            invariant
                0 <= i <= LUNS_PER_CHANNEL,
                self.last_lun_picked == old(self).last_lun_picked,
                self.channel_id == old(self).channel_id,
                old(self).last_lun_picked + LUNS_PER_CHANNEL <= usize::MAX,
                self.model().block_scan(i as nat) == old(self).model().block_scan(0),
            decreases LUNS_PER_CHANNEL - i,
        {
            let lun_idx = (self.last_lun_picked + 1 + i) % self.luns.len();
            let ghost before = self.model();
            let mut lun = self.luns[lun_idx];
            if let Some(block) = lun.free.pop() {
                let pba = PhysicalBlockAddress {
                    channel_id: self.channel_id,
                    lun_id: lun_idx,
                    plane_id: block.plane_id,
                    block_id: block.id,
                };
                let pushed = lun.used.push(block);
                self.luns[lun_idx] = lun;
                assert(self.model().luns =~= before.luns.update(lun_idx as int, lun.model()));
                let Ok(()) = pushed else {
                    return Err(ProvisionError::BlockErr("Could not push block to used."));
                };
                self.last_lun_picked = lun_idx;
                return Ok(pba);
            }
            assert(self.model().luns =~= before.luns.update(lun_idx as int, lun.model()));
            i = i + 1;
        }
        return Err(ProvisionError::NoFreeBlock);
    }

    /// Hands out the next free page of the first LUN, in round-robin order, that has one.
    /// Partly written blocks are used before a free block is opened.
    pub fn provision_page(&mut self) -> (r: Result<PhysicalPageAddress, ProvisionError>)
        requires
            old(self).last_lun_picked + LUNS_PER_CHANNEL <= usize::MAX,
        ensures
            final(self).channel_id == old(self).channel_id,
            final(self).last_lun_picked == old(self).last_lun_picked || final(self).last_lun_picked
                < LUNS_PER_CHANNEL,
            ({
                let (after, outcome) = old(self).model().page_scan(0);
                &&& final(self).model() == after
                &&& match outcome {
                    ChannelPageOutcome::NoFreePage => r == Err::<PhysicalPageAddress, ProvisionError>(
                        ProvisionError::NoFreePage,
                    ),
                    ChannelPageOutcome::UsedFull => r == Err::<PhysicalPageAddress, ProvisionError>(
                        ProvisionError::BlockErr("Could not push block to used."),
                    ),
                    ChannelPageOutcome::Granted(ppa) => r == Ok::<PhysicalPageAddress, ProvisionError>(ppa),
                }
            }),
    {
        let mut i: usize = 0;
        while i < self.luns.len()
            invariant
                0 <= i <= LUNS_PER_CHANNEL,
                self.last_lun_picked == old(self).last_lun_picked,
                self.channel_id == old(self).channel_id,
                old(self).last_lun_picked + LUNS_PER_CHANNEL <= usize::MAX,
                self.model().page_scan(i as nat) == old(self).model().page_scan(0),
            decreases LUNS_PER_CHANNEL - i,
        {
            let lun_idx = (self.last_lun_picked + 1 + i) % self.luns.len();
            let ghost before = self.model();
            let ghost lun_before = self.luns@[lun_idx as int].model();
            let mut lun = self.luns[lun_idx];
            if let Some(mut block) = lun.partially_used.pop() {
                let ghost pb = block.model();
                let ghost rest = lun.model().partially_used;
                assert(rest =~= lun_before.partially_used.drop_first());
                let mut idx: usize = 0;
                while idx < block.pages.len()
                    invariant
                        0 <= idx <= PAGES_PER_BLOCK,
                        0 <= i < LUNS_PER_CHANNEL,
                        lun_idx == lun_in_turn(old(self).last_lun_picked as int, i as int),
                        lun_idx < LUNS_PER_CHANNEL,
                        self.model() == before,
                        self.last_lun_picked == old(self).last_lun_picked,
                        self.channel_id == old(self).channel_id,
                        old(self).last_lun_picked + LUNS_PER_CHANNEL <= usize::MAX,
                        before.page_scan(i as nat) == old(self).model().page_scan(0),
                        lun_before == before.luns[lun_idx as int],
                        lun_before.partially_used.len() > 0,
                        pb == lun_before.partially_used[0],
                        lun.model().partially_used == rest,
                        lun.partially_used@.len() < BLOCKS_PER_LUN,
                        rest == lun_before.partially_used.drop_first(),
                        lun.model().free == lun_before.free,
                        lun.model().used == lun_before.used,
                        block.model() == pb,
                        first_free_from(pb.pages, 0) == first_free_from(pb.pages, idx as int),
                    decreases PAGES_PER_BLOCK - idx,
                {
                    if block.pages[idx] == Page::Free {
                        let more_free = has_free_page_from(&block.pages, idx + 1);
                        block.pages[idx] = Page::InUse;
                        if !more_free {
                            let pushed = lun.used.push(Block { id: block.id, plane_id: block.plane_id });
                            self.luns[lun_idx] = lun;
                            assert(self.model().luns =~= before.luns.update(lun_idx as int, lun.model()));
                            let Ok(()) = pushed else {
                                return Err(ProvisionError::BlockErr("Could not push block to used."));
                            };
                        } else {
                            let pushed = lun.partially_used.push(block);
                            assert(lun.model().partially_used =~= rest.push(block.model()));
                            self.luns[lun_idx] = lun;
                            assert(self.model().luns =~= before.luns.update(lun_idx as int, lun.model()));
                            let Ok(()) = pushed else {
                                return Err(ProvisionError::BlockErr("Could not push block to partially used."));
                            };
                        }
                        let ppa = PhysicalPageAddress {
                            channel_id: self.channel_id,
                            lun_id: lun_idx,
                            plane_id: block.plane_id,
                            block_id: block.id,
                            page_id: idx,
                        };
                        self.last_lun_picked = lun_idx;
                        return Ok(ppa);
                    }
                    idx = idx + 1;
                }
                self.luns[lun_idx] = lun;
                assert(self.model().luns =~= before.luns.update(lun_idx as int, lun.model()));
            } else if let Some(block) = lun.free.pop() {
                let mut block_with_page_info = BlockWithPageInfo {
                    id: block.id,
                    plane_id: block.plane_id,
                    pages: [Page::Free; PAGES_PER_BLOCK],
                };
                block_with_page_info.pages[0] = Page::InUse;
                assert(block_with_page_info.model().pages =~= fresh_block_pages());
                let pushed = lun.partially_used.push(block_with_page_info);
                assert(lun.model().partially_used =~= seq![block_with_page_info.model()]);
                self.luns[lun_idx] = lun;
                assert(self.model().luns =~= before.luns.update(lun_idx as int, lun.model()));
                let Ok(()) = pushed else {
                    return Err(ProvisionError::BlockErr("Could not push block to partially used."));
                };
                let ppa = PhysicalPageAddress {
                    channel_id: self.channel_id,
                    lun_id: lun_idx,
                    plane_id: block.plane_id,
                    block_id: block.id,
                    page_id: 0,
                };
                self.last_lun_picked = lun_idx;
                return Ok(ppa);
            } else {
                assert(self.model().luns =~= before.luns.update(lun_idx as int, lun.model()));
            }
            i = i + 1;
        }
        return Err(ProvisionError::NoFreePage);
    }
}

/// `first_free_from` finds the first free page at or after `j`, or reports the length.
pub proof fn lemma_first_free_from(pages: Seq<Page>, j: int)
    requires
        0 <= j <= pages.len(),
    ensures
        j <= first_free_from(pages, j) <= pages.len(),
        first_free_from(pages, j) < pages.len() ==> pages[first_free_from(pages, j)] == Page::Free,
        forall|k: int| j <= k < first_free_from(pages, j) ==> pages[k] == Page::InUse,
    decreases pages.len() - j,
{
    if j < pages.len() && pages[j] != Page::Free {
        lemma_first_free_from(pages, j + 1);
    }
}

/// A page handed out from a partly written block is its first free page; the block keeps
/// it marked in use, at the end of the partly written list or, once none of its pages
/// stays free, on the used list. A page handed out from a free block is page 0 of a block
/// whose other pages stay free.
pub proof fn lemma_page_step_takes_free_page(lun: LunModel)
    ensures
        lun.page_step().1 matches LunPageStep::Granted(b, j, from_free) ==> if from_free {
            &&& j == 0
            &&& lun.partially_used.len() == 0
            &&& lun.free.len() > 0 && b == lun.free[0]
            &&& lun.page_step().0.partially_used == seq![
                PagedBlock { id: b.id, plane_id: b.plane_id, pages: fresh_block_pages() },
            ]
        } else {
            let pb = lun.partially_used[0];
            let after = lun.page_step().0;
            &&& lun.partially_used.len() > 0
            &&& b == Block { id: pb.id, plane_id: pb.plane_id }
            &&& 0 <= j < pb.pages.len()
            &&& pb.pages[j] == Page::Free
            &&& forall|k: int| 0 <= k < j ==> pb.pages[k] == Page::InUse
            &&& first_free_from(pb.pages, j + 1) < pb.pages.len() ==> {
                &&& after.partially_used.len() == lun.partially_used.len()
                &&& after.partially_used.last().pages == pb.pages.update(j, Page::InUse)
            }
            &&& first_free_from(pb.pages, j + 1) >= pb.pages.len() ==> {
                &&& forall|k: int| 0 <= k < pb.pages.len() && k != j ==> pb.pages[k] == Page::InUse
                &&& lun.used.len() < BLOCKS_PER_LUN ==> after.used == lun.used.push(b)
            }
        },
{
    if lun.partially_used.len() > 0 {
        let pages = lun.partially_used[0].pages;
        lemma_first_free_from(pages, 0);
        let j = first_free_from(pages, 0);
        if j < pages.len() {
            lemma_first_free_from(pages, j + 1);
        }
    }
}

/// A LUN whose listed blocks are in range stays so after serving a page request, and
/// the page it grants is in range.
pub proof fn lemma_lun_page_step_in_range(lun: LunModel)
    requires
        lun.addresses_valid(),
    ensures
        lun.page_step().0.addresses_valid(),
        lun.page_step().1 matches LunPageStep::Granted(b, j, _) ==> block_in_range(b) && 0 <= j
            < PAGES_PER_BLOCK,
{
    if lun.partially_used.len() > 0 {
        let b = lun.partially_used[0];
        assert(b.in_range());
        lemma_first_free_from(b.pages, 0);
        let (after, step) = lun.page_step();
        assert forall|k: int| 0 <= k < after.partially_used.len() implies (
        #[trigger] after.partially_used[k]).in_range() by {
            if k < lun.partially_used.len() - 1 {
                assert(after.partially_used[k] == lun.partially_used[k + 1]);
            }
        }
    } else if lun.free.len() > 0 {
        assert(block_in_range(lun.free[0]));
    }
}

/// A LUN whose listed blocks are in range stays so after serving a block request, and
/// the block it grants is in range.
pub proof fn lemma_lun_block_step_in_range(lun: LunModel)
    requires
        lun.addresses_valid(),
    ensures
        lun.block_step().0.addresses_valid(),
        lun.block_step().1 matches LunBlockStep::Granted(b) ==> block_in_range(b),
{
    if lun.free.len() > 0 {
        assert(block_in_range(lun.free[0]));
    }
}

/// Serving a page request keeps a channel's addresses in range, and the page it grants
/// is a valid address.
pub proof fn lemma_channel_page_scan_in_range(ch: ChannelModel, i: nat)
    requires
        ch.addresses_valid(),
    ensures
        ch.page_scan(i).0.addresses_valid(),
        ch.page_scan(i).1 matches ChannelPageOutcome::Granted(ppa) ==> ppa.valid(),
    decreases LUNS_PER_CHANNEL - i,
{
    if i < LUNS_PER_CHANNEL {
        let l = lun_in_turn(ch.last_lun_picked as int, i as int);
        lemma_lun_page_step_in_range(ch.luns[l]);
        let (lun, step) = ch.luns[l].page_step();
        let next = ch.with_lun(l, lun);
        assert(next.addresses_valid());
        if step is Skip {
            lemma_channel_page_scan_in_range(next, i + 1);
        }
    }
}

/// Serving a block request keeps a channel's addresses in range, and the block it
/// grants lies in the channel's geometry.
pub proof fn lemma_channel_block_scan_in_range(ch: ChannelModel, i: nat)
    requires
        ch.addresses_valid(),
    ensures
        ch.block_scan(i).0.addresses_valid(),
        ch.block_scan(i).1 matches ChannelBlockOutcome::Granted(pba) ==> {
            &&& pba.channel_id < N_CHANNELS
            &&& pba.lun_id < LUNS_PER_CHANNEL
            &&& pba.plane_id < PLANES_PER_LUN
            &&& pba.block_id < BLOCKS_PER_PLANE
        },
    decreases LUNS_PER_CHANNEL - i,
{
    if i < LUNS_PER_CHANNEL {
        let l = lun_in_turn(ch.last_lun_picked as int, i as int);
        lemma_lun_block_step_in_range(ch.luns[l]);
        let (lun, step) = ch.luns[l].block_step();
        let next = ch.with_lun(l, lun);
        assert(next.addresses_valid());
        if step is Skip {
            lemma_channel_block_scan_in_range(next, i + 1);
        }
    }
}

/// Serving a page request keeps every address of the provisioner in range, and the
/// page it hands out is a valid address.
pub proof fn lemma_page_scan_in_range(p: ProvisionerModel, i: nat)
    requires
        p.wf(),
        p.addresses_valid(),
    ensures
        p.page_scan(i).0.addresses_valid(),
        p.page_scan(i).1 matches Some((c, ppa)) ==> ppa.valid(),
    decreases N_CHANNELS - i,
{
    if i < N_CHANNELS {
        let c = channel_in_turn(p.last_channel_provisioned, i as int);
        lemma_channel_page_scan_in_range(p.channels[c], 0);
        let (ch, outcome) = p.channels[c].page_scan(0);
        let next = ProvisionerModel { channels: p.channels.update(c, ch), ..p };
        assert(next.addresses_valid());
        if !(outcome is Granted) {
            assert(next.wf()) by {
                lemma_channel_page_scan_wf(p.channels[c], 0);
            }
            lemma_page_scan_in_range(next, i + 1);
        }
    }
}

/// Serving a block request keeps every address of the provisioner in range.
pub proof fn lemma_block_scan_in_range(p: ProvisionerModel, i: nat)
    requires
        p.wf(),
        p.addresses_valid(),
    ensures
        p.block_scan(i).0.addresses_valid(),
    decreases N_CHANNELS - i,
{
    if i < N_CHANNELS {
        let c = channel_in_turn(p.last_channel_provisioned, i as int);
        lemma_channel_block_scan_in_range(p.channels[c], 0);
        let (ch, outcome) = p.channels[c].block_scan(0);
        let next = ProvisionerModel { channels: p.channels.update(c, ch), ..p };
        assert(next.addresses_valid());
        if !(outcome is Granted) {
            assert(next.wf()) by {
                lemma_channel_block_scan_wf(p.channels[c], 0);
            }
            lemma_block_scan_in_range(next, i + 1);
        }
    }
}

/// A page request keeps a channel well formed and its id, and leaves its round-robin
/// position either unchanged or on one of its LUNs.
pub proof fn lemma_channel_page_scan_wf(ch: ChannelModel, i: nat)
    requires
        ch.wf(),
    ensures
        ch.page_scan(i).0.wf(),
        ch.page_scan(i).0.channel_id == ch.channel_id,
        ch.page_scan(i).0.last_lun_picked == ch.last_lun_picked || ch.page_scan(i).0.last_lun_picked
            < LUNS_PER_CHANNEL,
    decreases LUNS_PER_CHANNEL - i,
{
    if i < LUNS_PER_CHANNEL {
        let l = lun_in_turn(ch.last_lun_picked as int, i as int);
        let (lun, step) = ch.luns[l].page_step();
        assert(lun.bounded());
        let next = ch.with_lun(l, lun);
        assert(next.wf());
        lemma_channel_page_scan_wf(next, i + 1);
    }
}

/// A block request keeps a channel well formed and its id, and leaves its round-robin
/// position either unchanged or on one of its LUNs.
pub proof fn lemma_channel_block_scan_wf(ch: ChannelModel, i: nat)
    requires
        ch.wf(),
    ensures
        ch.block_scan(i).0.wf(),
        ch.block_scan(i).0.channel_id == ch.channel_id,
        ch.block_scan(i).0.last_lun_picked == ch.last_lun_picked || ch.block_scan(i).0.last_lun_picked
            < LUNS_PER_CHANNEL,
    decreases LUNS_PER_CHANNEL - i,
{
    if i < LUNS_PER_CHANNEL {
        let l = lun_in_turn(ch.last_lun_picked as int, i as int);
        let (lun, step) = ch.luns[l].block_step();
        assert(lun.bounded());
        let next = ch.with_lun(l, lun);
        assert(next.wf());
        lemma_channel_block_scan_wf(next, i + 1);
    }
}

} // verus!
