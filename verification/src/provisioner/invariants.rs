use vstd::multiset::Multiset;
use vstd::prelude::*;

use crate::bad_block_table::table::{BadBlockTable, BlockStatus, ChannelBadBlockTable};
use crate::config::{BLOCKS_PER_LUN, LUNS_PER_CHANNEL, N_CHANNELS};
use crate::device::address::PhysicalPageAddress;
use crate::provisioner::provisioner::{
    channel_in_turn, first_free_from, fresh_block_pages, lemma_first_free_from, lun_in_turn, Block,
    ChannelBlockOutcome, ChannelModel, ChannelPageOutcome, LunBlockStep, LunModel, LunPageStep, Page,
    PagedBlock, ProvisionerModel,
};

verus! {

// ---------------------------------------------------------------------------------
// Listed blocks are good
// ---------------------------------------------------------------------------------

/// Block `b` of LUN `l` is not the reserved block 0 and table `t` records it as good.
pub open spec fn good_in(t: ChannelBadBlockTable, l: int, b: Block) -> bool {
    b.id != 0 && t.status(l, b.plane_id as int, b.id as int) == BlockStatus::Good
}

/// The block a partly written block stands for.
pub open spec fn block_of(pb: PagedBlock) -> Block {
    Block { id: pb.id, plane_id: pb.plane_id }
}

impl LunModel {
    /// Every block on the lists of LUN `l` is good in `t`.
    pub open spec fn blocks_good(self, t: ChannelBadBlockTable, l: int) -> bool {
        &&& forall|k: int| 0 <= k < self.free.len() ==> good_in(t, l, #[trigger] self.free[k])
        &&& forall|k: int| 0 <= k < self.used.len() ==> good_in(t, l, #[trigger] self.used[k])
        &&& forall|k: int|
            0 <= k < self.partially_used.len() ==> good_in(t, l, block_of(#[trigger] self.partially_used[k]))
    }
}

impl ChannelModel {
    /// Every block on the lists of every LUN of the channel is good in `t`.
    pub open spec fn blocks_good(self, t: ChannelBadBlockTable) -> bool {
        forall|l: int| 0 <= l < LUNS_PER_CHANNEL ==> (#[trigger] self.luns[l]).blocks_good(t, l)
    }
}

impl ProvisionerModel {
    /// Every block on every list is good in the table of its channel.
    pub open spec fn blocks_good(self, bbt: BadBlockTable) -> bool {
        forall|c: int|
            0 <= c < N_CHANNELS ==> (#[trigger] self.channels[c]).blocks_good(bbt.channel_bad_block_tables@[c])
    }
}

/// A page request keeps a LUN's listed blocks good, and a page it grants lies in a good block.
pub proof fn lemma_lun_page_step_good(lun: LunModel, t: ChannelBadBlockTable, l: int)
    requires
        lun.blocks_good(t, l),
    ensures
        lun.page_step().0.blocks_good(t, l),
        lun.page_step().1 matches LunPageStep::Granted(b, j, f) ==> good_in(t, l, b),
{
    let after = lun.page_step().0;
    if lun.partially_used.len() > 0 {
        let b = lun.partially_used[0];
        assert(good_in(t, l, block_of(b)));
        assert forall|k: int| 0 <= k < after.partially_used.len() implies good_in(
            t,
            l,
            block_of(#[trigger] after.partially_used[k]),
        ) by {
            if k < lun.partially_used.len() - 1 {
                assert(after.partially_used[k] == lun.partially_used[k + 1]);
            } else {
                assert(block_of(after.partially_used[k]) == block_of(b));
            }
        }
        assert forall|k: int| 0 <= k < after.used.len() implies good_in(t, l, #[trigger] after.used[k]) by {
            if k < lun.used.len() {
                assert(after.used[k] == lun.used[k]);
            }
        }
    } else if lun.free.len() > 0 {
        assert(good_in(t, l, lun.free[0]));
        assert forall|k: int| 0 <= k < after.free.len() implies good_in(t, l, #[trigger] after.free[k]) by {
            assert(after.free[k] == lun.free[k + 1]);
        }
        assert(block_of(after.partially_used[0]) == lun.free[0]);
    }
}

/// A page request keeps a channel's listed blocks good; a page it grants lies in a good
/// block of one of its LUNs and names the channel.
pub proof fn lemma_channel_page_scan_good(ch: ChannelModel, t: ChannelBadBlockTable, i: nat)
    requires
        ch.luns.len() == LUNS_PER_CHANNEL,
        ch.blocks_good(t),
    ensures
        ch.page_scan(i).0.blocks_good(t),
        ch.page_scan(i).0.luns.len() == LUNS_PER_CHANNEL,
        ch.page_scan(i).0.channel_id == ch.channel_id,
        ch.page_scan(i).1 matches ChannelPageOutcome::Granted(ppa) ==> {
            &&& ppa.channel_id == ch.channel_id
            &&& ppa.lun_id < LUNS_PER_CHANNEL
            &&& good_in(t, ppa.lun_id as int, Block { id: ppa.block_id, plane_id: ppa.plane_id })
        },
    decreases LUNS_PER_CHANNEL - i,
{
    if i < LUNS_PER_CHANNEL {
        let l = lun_in_turn(ch.last_lun_picked as int, i as int);
        lemma_lun_page_step_good(ch.luns[l], t, l);
        let (lun, step) = ch.luns[l].page_step();
        let next = ch.with_lun(l, lun);
        assert(next.blocks_good(t)) by {
            assert forall|m: int| 0 <= m < LUNS_PER_CHANNEL implies (#[trigger] next.luns[m]).blocks_good(t, m) by {
                if m != l {
                    assert(next.luns[m] == ch.luns[m]);
                }
            }
        }
        if step is Skip {
            lemma_channel_page_scan_good(next, t, i + 1);
        }
    }
}

/// Pages are handed out from good blocks only: a page request on lists whose blocks are
/// all good keeps them so, and the page it grants lies in a block that the table of the
/// granting channel records as good and that is not the reserved block 0.
pub proof fn lemma_page_scan_good(p: ProvisionerModel, bbt: BadBlockTable, i: nat)
    requires
        p.wf(),
        p.blocks_good(bbt),
    ensures
        p.page_scan(i).0.blocks_good(bbt),
        p.page_scan(i).1 matches Some((c, ppa)) ==> {
            &&& 0 <= c < N_CHANNELS
            &&& ppa.channel_id == p.channels[c].channel_id
            &&& ppa.block_id != 0
            &&& bbt.channel_bad_block_tables@[c].status(ppa.lun_id as int, ppa.plane_id as int, ppa.block_id as int)
                == BlockStatus::Good
        },
    decreases N_CHANNELS - i,
{
    if i < N_CHANNELS {
        let c = channel_in_turn(p.last_channel_provisioned, i as int);
        let t = bbt.channel_bad_block_tables@[c];
        lemma_channel_page_scan_good(p.channels[c], t, 0);
        let (ch, outcome) = p.channels[c].page_scan(0);
        let next = ProvisionerModel { channels: p.channels.update(c, ch), ..p };
        assert(next.blocks_good(bbt)) by {
            assert forall|d: int| 0 <= d < N_CHANNELS implies (#[trigger] next.channels[d]).blocks_good(
                bbt.channel_bad_block_tables@[d],
            ) by {
                if d != c {
                    assert(next.channels[d] == p.channels[d]);
                }
            }
        }
        if !(outcome is Granted) {
            assert(next.wf()) by {
                crate::provisioner::provisioner::lemma_channel_page_scan_wf(p.channels[c], 0);
            }
            assert(forall|d: int| 0 <= d < N_CHANNELS ==> (#[trigger] next.channels[d]).channel_id
                == p.channels[d].channel_id);
            lemma_page_scan_good(next, bbt, i + 1);
        }
    }
}

// ---------------------------------------------------------------------------------
// No page is handed out twice
// ---------------------------------------------------------------------------------

/// A page of a LUN: its block and its index in the block.
pub type LunPage = (Block, usize);

impl LunModel {
    /// No block is listed twice on the three lists taken together.
    pub open spec fn distinct(self) -> bool {
        &&& forall|i: int, j: int| 0 <= i < j < self.free.len() ==> self.free[i] != self.free[j]
        &&& forall|i: int, j: int| 0 <= i < j < self.used.len() ==> self.used[i] != self.used[j]
        &&& forall|i: int, k: int| 0 <= i < self.free.len() && 0 <= k < self.used.len() ==> self.free[i] != self.used[k]
        &&& forall|i: int, k: int|
            0 <= i < self.used.len() && 0 <= k < self.partially_used.len() ==> self.used[i] != block_of(
                self.partially_used[k],
            )
        &&& forall|i: int, k: int|
            0 <= i < self.free.len() && 0 <= k < self.partially_used.len() ==> self.free[i] != block_of(
                self.partially_used[k],
            )
        &&& forall|i: int, j: int|
            0 <= i < j < self.partially_used.len() ==> block_of(self.partially_used[i]) != block_of(
                self.partially_used[j],
            )
    }

    /// No page of `issued` can be handed out again: none lies in a free block, and none
    /// is marked free in a partly written block.
    pub open spec fn fresh_for(self, issued: Set<LunPage>) -> bool {
        &&& forall|x: LunPage, i: int|
            #![trigger issued.contains(x), self.free[i]]
            issued.contains(x) && 0 <= i < self.free.len() ==> self.free[i] != x.0
        &&& forall|x: LunPage, k: int|
            #![trigger issued.contains(x), self.partially_used[k]]
            issued.contains(x) && 0 <= k < self.partially_used.len() && block_of(self.partially_used[k])
                == x.0 && (x.1 as int) < self.partially_used[k].pages.len() ==> self.partially_used[k].pages[x.1 as int]
                != Page::Free
    }
}

/// A page request on a LUN with distinct lists hands out a page that was not handed out
/// before, and afterwards neither it nor any page handed out before can be handed out
/// again; the lists stay distinct.
pub proof fn lemma_lun_page_step_fresh(lun: LunModel, issued: Set<LunPage>)
    requires
        lun.addresses_valid(),
        lun.distinct(),
        lun.fresh_for(issued),
    ensures
        lun.page_step().0.distinct(),
        match lun.page_step().1 {
            LunPageStep::Granted(b, j, _) => {
                &&& 0 <= j
                &&& !issued.contains((b, j as usize))
                &&& lun.page_step().0.fresh_for(issued.insert((b, j as usize)))
            },
            _ => lun.page_step().0.fresh_for(issued),
        },
{
    let (after, step) = lun.page_step();
    if lun.partially_used.len() > 0 {
        let b0 = lun.partially_used[0];
        let blk = block_of(b0);
        let j = b0.first_free();
        assert(b0.in_range());
        lemma_first_free_from(b0.pages, 0);
        let rest = lun.partially_used.drop_first();
        assert forall|i: int, k: int| 0 <= i < k < rest.len() implies block_of(rest[i]) != block_of(rest[k]) by {
            assert(rest[i] == lun.partially_used[i + 1]);
            assert(rest[k] == lun.partially_used[k + 1]);
        }
        if j < b0.pages.len() {
            lemma_first_free_from(b0.pages, j + 1);
            let x = (blk, j as usize);
            if issued.contains(x) {
                assert(lun.partially_used[0].pages[x.1 as int] != Page::Free);
            }
            let issued2 = issued.insert(x);
            assert forall|y: LunPage, i: int| issued2.contains(y) && 0 <= i < after.free.len() implies after.free[i]
                != y.0 by {
                assert(after.free[i] == lun.free[i]);
                if y == x {
                    assert(lun.free[i] != block_of(lun.partially_used[0]));
                } else {
                    assert(issued.contains(y));
                }
            }
            if first_free_from(b0.pages, j + 1) >= b0.pages.len() {
                assert forall|y: LunPage, k: int|
                    issued2.contains(y) && 0 <= k < after.partially_used.len() && block_of(after.partially_used[k])
                        == y.0 && (y.1 as int) < after.partially_used[k].pages.len() implies after.partially_used[k].pages[y.1 as int] != Page::Free by {
                    assert(after.partially_used[k] == lun.partially_used[k + 1]);
                    if y == x {
                        assert(block_of(lun.partially_used[0]) != block_of(lun.partially_used[k + 1]));
                    } else {
                        assert(issued.contains(y));
                    }
                }
                assert(after.distinct()) by {
                    assert forall|i: int, k: int| 0 <= i < after.free.len() && 0 <= k < after.partially_used.len()
                        implies after.free[i] != block_of(after.partially_used[k]) by {
                        assert(after.partially_used[k] == lun.partially_used[k + 1]);
                    }
                }
            } else {
                let marked = PagedBlock { pages: b0.pages.update(j, Page::InUse), ..b0 };
                assert(after.partially_used == rest.push(marked));
                assert forall|y: LunPage, k: int|
                    issued2.contains(y) && 0 <= k < after.partially_used.len() && block_of(after.partially_used[k])
                        == y.0 && (y.1 as int) < after.partially_used[k].pages.len() implies after.partially_used[k].pages[y.1 as int] != Page::Free by {
                    if k < rest.len() {
                        assert(after.partially_used[k] == lun.partially_used[k + 1]);
                        if y == x {
                            assert(block_of(lun.partially_used[0]) != block_of(lun.partially_used[k + 1]));
                        } else {
                            assert(issued.contains(y));
                        }
                    } else {
                        assert(after.partially_used[k] == marked);
                        if y == x {
                            assert(marked.pages[j] == Page::InUse);
                        } else {
                            assert(issued.contains(y));
                            assert(lun.partially_used[0].pages[y.1 as int] != Page::Free);
                        }
                    }
                }
                assert(after.distinct()) by {
                    assert forall|i: int, k: int| 0 <= i < after.free.len() && 0 <= k < after.partially_used.len()
                        implies after.free[i] != block_of(after.partially_used[k]) by {
                        if k < rest.len() {
                            assert(after.partially_used[k] == lun.partially_used[k + 1]);
                        } else {
                            assert(block_of(after.partially_used[k]) == block_of(lun.partially_used[0]));
                        }
                    }
                    assert forall|i: int, k: int| 0 <= i < k < after.partially_used.len() implies block_of(
                        after.partially_used[i],
                    ) != block_of(after.partially_used[k]) by {
                        assert(after.partially_used[i] == lun.partially_used[i + 1]);
                        if k < rest.len() {
                            assert(after.partially_used[k] == lun.partially_used[k + 1]);
                        } else {
                            assert(block_of(after.partially_used[k]) == block_of(lun.partially_used[0]));
                        }
                    }
                }
            }
        } else {
            assert forall|y: LunPage, k: int|
                issued.contains(y) && 0 <= k < after.partially_used.len() && block_of(after.partially_used[k])
                    == y.0 && (y.1 as int) < after.partially_used[k].pages.len() implies after.partially_used[k].pages[y.1 as int] != Page::Free by {
                assert(after.partially_used[k] == lun.partially_used[k + 1]);
            }
            assert(after.distinct()) by {
                assert forall|i: int, k: int| 0 <= i < after.free.len() && 0 <= k < after.partially_used.len()
                    implies after.free[i] != block_of(after.partially_used[k]) by {
                    assert(after.partially_used[k] == lun.partially_used[k + 1]);
                }
            }
        }
    } else if lun.free.len() > 0 {
        let f = lun.free[0];
        let x = (f, 0usize);
        if issued.contains(x) {
            assert(lun.free[0] != x.0);
        }
        let issued2 = issued.insert(x);
        assert forall|y: LunPage, i: int| issued2.contains(y) && 0 <= i < after.free.len() implies after.free[i]
            != y.0 by {
            assert(after.free[i] == lun.free[i + 1]);
            if y == x {
                assert(lun.free[0] != lun.free[i + 1]);
            } else {
                assert(issued.contains(y));
            }
        }
        assert forall|y: LunPage, k: int|
            issued2.contains(y) && 0 <= k < after.partially_used.len() && block_of(after.partially_used[k]) == y.0 && (y.1 as int) < after.partially_used[k].pages.len() implies after.partially_used[k].pages[y.1 as int] != Page::Free by {
            assert(k == 0);
            assert(block_of(after.partially_used[0]) == f);
            if y != x {
                assert(issued.contains(y));
                assert(lun.free[0] != y.0);
            }
        }
        assert(after.distinct()) by {
            assert forall|i: int, k: int| 0 <= i < after.free.len() && 0 <= k < after.partially_used.len()
                implies after.free[i] != block_of(after.partially_used[k]) by {
                assert(after.free[i] == lun.free[i + 1]);
                assert(lun.free[0] != lun.free[i + 1]);
            }
            assert forall|i: int, k: int| 0 <= i < k < after.free.len() implies after.free[i] != after.free[k] by {
                assert(after.free[i] == lun.free[i + 1]);
                assert(after.free[k] == lun.free[k + 1]);
            }
        }
    }
}

/// The pages of `issued` that lie in LUN `l` of channel `cid`.
pub open spec fn lun_pages(issued: Set<PhysicalPageAddress>, cid: usize, l: int) -> Set<LunPage> {
    Set::new(
        |x: LunPage|
            issued.contains(
                PhysicalPageAddress {
                    channel_id: cid,
                    lun_id: l as usize,
                    plane_id: x.0.plane_id,
                    block_id: x.0.id,
                    page_id: x.1,
                },
            ),
    )
}

impl ChannelModel {
    /// No LUN of the channel lists a block twice.
    pub open spec fn distinct(self) -> bool {
        forall|l: int| 0 <= l < LUNS_PER_CHANNEL ==> (#[trigger] self.luns[l]).distinct()
    }

    /// No page of `issued` in this channel can be handed out again.
    pub open spec fn fresh_for(self, issued: Set<PhysicalPageAddress>) -> bool {
        forall|l: int|
            0 <= l < LUNS_PER_CHANNEL ==> (#[trigger] self.luns[l]).fresh_for(lun_pages(issued, self.channel_id, l))
    }
}

impl ProvisionerModel {
    /// No LUN of any channel lists a block twice.
    pub open spec fn distinct(self) -> bool {
        forall|c: int| 0 <= c < N_CHANNELS ==> (#[trigger] self.channels[c]).distinct()
    }

    /// No page of `issued` can be handed out again.
    pub open spec fn fresh_for(self, issued: Set<PhysicalPageAddress>) -> bool {
        forall|c: int| 0 <= c < N_CHANNELS ==> (#[trigger] self.channels[c]).fresh_for(issued)
    }

    /// The channel at index `c` has id `c`.
    pub open spec fn ids_match(self) -> bool {
        forall|c: int| 0 <= c < N_CHANNELS ==> (#[trigger] self.channels[c]).channel_id == c
    }
}

/// A page request on a channel hands out a page of that channel that was not handed out
/// before, after which neither it nor any page handed out before can be handed out again.
pub proof fn lemma_channel_page_scan_fresh(ch: ChannelModel, issued: Set<PhysicalPageAddress>, i: nat)
    requires
        ch.addresses_valid(),
        ch.distinct(),
        ch.fresh_for(issued),
    ensures
        ch.page_scan(i).0.distinct(),
        ch.page_scan(i).0.channel_id == ch.channel_id,
        match ch.page_scan(i).1 {
            ChannelPageOutcome::Granted(ppa) => {
                &&& ppa.channel_id == ch.channel_id
                &&& !issued.contains(ppa)
                &&& ch.page_scan(i).0.fresh_for(issued.insert(ppa))
            },
            _ => ch.page_scan(i).0.fresh_for(issued),
        },
    decreases LUNS_PER_CHANNEL - i,
{
    if i < LUNS_PER_CHANNEL {
        let l = lun_in_turn(ch.last_lun_picked as int, i as int);
        let cid = ch.channel_id;
        let own = lun_pages(issued, cid, l);
        lemma_lun_page_step_fresh(ch.luns[l], own);
        crate::provisioner::provisioner::lemma_lun_page_step_in_range(ch.luns[l]);
        let (lun, step) = ch.luns[l].page_step();
        let next = ch.with_lun(l, lun);
        assert(next.distinct()) by {
            assert forall|m: int| 0 <= m < LUNS_PER_CHANNEL implies (#[trigger] next.luns[m]).distinct() by {
                if m != l {
                    assert(next.luns[m] == ch.luns[m]);
                }
            }
        }
        match step {
            LunPageStep::Granted(b, j, _) => {
                let ppa = PhysicalPageAddress {
                    channel_id: cid,
                    lun_id: l as usize,
                    plane_id: b.plane_id,
                    block_id: b.id,
                    page_id: j as usize,
                };
                assert(own.contains((b, j as usize)) == issued.contains(ppa));
                let issued2 = issued.insert(ppa);
                let after = ChannelModel { last_lun_picked: l as usize, ..next };
                assert forall|m: int| 0 <= m < LUNS_PER_CHANNEL implies (#[trigger] after.luns[m]).fresh_for(
                    lun_pages(issued2, cid, m),
                ) by {
                    if m == l {
                        assert(lun_pages(issued2, cid, m) =~= own.insert((b, j as usize)));
                    } else {
                        assert(lun_pages(issued2, cid, m) =~= lun_pages(issued, cid, m));
                        assert(after.luns[m] == ch.luns[m]);
                    }
                }
            },
            LunPageStep::UsedFull => {
                assert forall|m: int| 0 <= m < LUNS_PER_CHANNEL implies (#[trigger] next.luns[m]).fresh_for(
                    lun_pages(issued, cid, m),
                ) by {
                    if m != l {
                        assert(next.luns[m] == ch.luns[m]);
                    }
                }
            },
            LunPageStep::Skip => {
                assert forall|m: int| 0 <= m < LUNS_PER_CHANNEL implies (#[trigger] next.luns[m]).fresh_for(
                    lun_pages(issued, cid, m),
                ) by {
                    if m != l {
                        assert(next.luns[m] == ch.luns[m]);
                    }
                }
                assert(next.addresses_valid());
                lemma_channel_page_scan_fresh(next, issued, i + 1);
            },
        }
    }
}

/// No page is provisioned twice: a page request on distinct lists hands out a page that
/// is not among the pages `issued` before, and afterwards no page of `issued`, nor the
/// new one, can be handed out again.
pub proof fn lemma_page_scan_fresh(p: ProvisionerModel, issued: Set<PhysicalPageAddress>, i: nat)
    requires
        p.wf(),
        p.addresses_valid(),
        p.ids_match(),
        p.distinct(),
        p.fresh_for(issued),
    ensures
        p.page_scan(i).0.distinct(),
        p.page_scan(i).0.ids_match(),
        match p.page_scan(i).1 {
            Some((c, ppa)) => {
                &&& !issued.contains(ppa)
                &&& p.page_scan(i).0.fresh_for(issued.insert(ppa))
            },
            None => p.page_scan(i).0.fresh_for(issued),
        },
    decreases N_CHANNELS - i,
{
    if i < N_CHANNELS {
        let c = channel_in_turn(p.last_channel_provisioned, i as int);
        lemma_channel_page_scan_fresh(p.channels[c], issued, 0);
        crate::provisioner::provisioner::lemma_channel_page_scan_in_range(p.channels[c], 0);
        let (ch, outcome) = p.channels[c].page_scan(0);
        let next = ProvisionerModel { channels: p.channels.update(c, ch), ..p };
        assert(next.distinct()) by {
            assert forall|d: int| 0 <= d < N_CHANNELS implies (#[trigger] next.channels[d]).distinct() by {
                if d != c {
                    assert(next.channels[d] == p.channels[d]);
                }
            }
        }
        assert(next.ids_match()) by {
            assert forall|d: int| 0 <= d < N_CHANNELS implies (#[trigger] next.channels[d]).channel_id == d by {
                if d != c {
                    assert(next.channels[d] == p.channels[d]);
                }
            }
        }
        match outcome {
            ChannelPageOutcome::Granted(ppa) => {
                let issued2 = issued.insert(ppa);
                assert forall|d: int| 0 <= d < N_CHANNELS implies (#[trigger] next.channels[d]).fresh_for(issued2) by {
                    if d != c {
                        let chd = p.channels[d];
                        assert(next.channels[d] == chd);
                        assert forall|m: int| 0 <= m < LUNS_PER_CHANNEL implies (#[trigger] chd.luns[m]).fresh_for(
                            lun_pages(issued2, chd.channel_id, m),
                        ) by {
                            assert(lun_pages(issued2, chd.channel_id, m) =~= lun_pages(issued, chd.channel_id, m));
                        }
                    }
                }
            },
            _ => {
                assert forall|d: int| 0 <= d < N_CHANNELS implies (#[trigger] next.channels[d]).fresh_for(issued) by {
                    if d != c {
                        assert(next.channels[d] == p.channels[d]);
                    }
                }
                assert(next.wf()) by {
                    crate::provisioner::provisioner::lemma_channel_page_scan_wf(p.channels[c], 0);
                }
                assert(next.addresses_valid());
                lemma_page_scan_fresh(next, issued, i + 1);
            },
        }
    }
}

// ---------------------------------------------------------------------------------
// Consecutive blocks come from different LUNs
// ---------------------------------------------------------------------------------

/// A block granted by a channel comes from one of its LUNs, which becomes its
/// round-robin position.
proof fn lemma_block_scan_grant_sets_position(ch: ChannelModel, i: nat)
    ensures
        ch.block_scan(i).1 matches ChannelBlockOutcome::Granted(pba) ==> {
            &&& pba.lun_id < LUNS_PER_CHANNEL
            &&& ch.block_scan(i).0.last_lun_picked == pba.lun_id
        },
    decreases LUNS_PER_CHANNEL - i,
{
    if i < LUNS_PER_CHANNEL {
        let l = lun_in_turn(ch.last_lun_picked as int, i as int);
        let (lun, step) = ch.luns[l].block_step();
        if step is Skip {
            lemma_block_scan_grant_sets_position(ch.with_lun(l, lun), i + 1);
        }
    }
}

/// A block request that grants from the LUN of the channel's previous pick found the
/// free lists of the LUNs it visited before, from the `i`-th on, empty.
proof fn lemma_block_scan_back_to_last(ch: ChannelModel, i: nat)
    requires
        ch.luns.len() == LUNS_PER_CHANNEL,
        ch.last_lun_picked < LUNS_PER_CHANNEL,
    ensures
        ch.block_scan(i).1 matches ChannelBlockOutcome::Granted(pba) && pba.lun_id == ch.last_lun_picked ==> forall|m: int|
            i <= m < LUNS_PER_CHANNEL - 1 ==> (#[trigger] ch.luns[lun_in_turn(ch.last_lun_picked as int, m)]).free.len()
                == 0,
    decreases LUNS_PER_CHANNEL - i,
{
    if i < LUNS_PER_CHANNEL {
        let last = ch.last_lun_picked as int;
        let l = lun_in_turn(last, i as int);
        let (lun, step) = ch.luns[l].block_step();
        if step is Skip {
            let next = ch.with_lun(l, lun);
            assert(lun == ch.luns[l]);
            assert(next.luns =~= ch.luns);
            lemma_block_scan_back_to_last(next, i + 1);
        } else if i < LUNS_PER_CHANNEL - 1 {
            assert(l != last);
        }
    }
}

/// Consecutive blocks of a channel come from different LUNs unless every other LUN has
/// run out of free blocks: when two block requests in a row are both granted from the
/// same LUN, the free list of every other LUN was empty after the first.
pub proof fn lemma_consecutive_blocks_from_different_luns(ch: ChannelModel)
    requires
        ch.wf(),
    ensures
        ({
            let (ch1, first) = ch.block_scan(0);
            let (ch2, second) = ch1.block_scan(0);
            match (first, second) {
                (ChannelBlockOutcome::Granted(a), ChannelBlockOutcome::Granted(b)) => a.lun_id == b.lun_id
                    ==> forall|m: int|
                    0 <= m < LUNS_PER_CHANNEL && m != a.lun_id ==> (#[trigger] ch1.luns[m]).free.len() == 0,
                _ => true,
            }
        }),
{
    let (ch1, first) = ch.block_scan(0);
    lemma_block_scan_grant_sets_position(ch, 0);
    crate::provisioner::provisioner::lemma_channel_block_scan_wf(ch, 0);
    if let ChannelBlockOutcome::Granted(a) = first {
        lemma_block_scan_back_to_last(ch1, 0);
        let last = a.lun_id as int;
        assert forall|m: int| 0 <= m < LUNS_PER_CHANNEL && m != last && (ch1.block_scan(0).1 matches ChannelBlockOutcome::Granted(b)
            && b.lun_id == a.lun_id) implies (#[trigger] ch1.luns[m]).free.len() == 0 by {
            let k = if m > last { m - last - 1 } else { m + LUNS_PER_CHANNEL - last - 1 };
            assert(0 <= k < LUNS_PER_CHANNEL - 1);
            assert(lun_in_turn(last, k) == m);
        }
    }
}

// ---------------------------------------------------------------------------------
// No block is lost
// ---------------------------------------------------------------------------------

impl LunModel {
    /// The blocks on the three lists, counted with multiplicity.
    pub open spec fn blocks(self) -> Multiset<Block> {
        self.free.to_multiset().add(self.used.to_multiset()).add(
            self.partially_used.map_values(|pb: PagedBlock| block_of(pb)).to_multiset(),
        )
    }

    /// The three lists together hold at most `BLOCKS_PER_LUN` blocks, and every partly
    /// written block has a free page.
    pub open spec fn settled(self) -> bool {
        &&& self.free.len() + self.used.len() + self.partially_used.len() <= BLOCKS_PER_LUN
        &&& forall|k: int|
            0 <= k < self.partially_used.len() ==> (#[trigger] self.partially_used[k]).first_free()
                < self.partially_used[k].pages.len()
    }
}

/// A free page at `m` bounds the first free page at or after `j <= m`.
proof fn lemma_first_free_at_most(pages: Seq<Page>, j: int, m: int)
    requires
        0 <= j <= m < pages.len(),
        pages[m] == Page::Free,
    ensures
        first_free_from(pages, j) <= m,
    decreases m - j,
{
    if pages[j] != Page::Free {
        lemma_first_free_at_most(pages, j + 1, m);
    }
}

/// A page request on a settled LUN never finds its used list full, keeps the LUN
/// settled, and keeps the same blocks on its lists: a LUN that offers no page is left
/// as it was.
pub proof fn lemma_lun_page_step_keeps_blocks(lun: LunModel)
    requires
        lun.addresses_valid(),
        lun.settled(),
    ensures
        !(lun.page_step().1 is UsedFull),
        lun.page_step().1 is Skip <==> lun.partially_used.len() == 0 && lun.free.len() == 0,
        lun.page_step().1 is Skip ==> lun.page_step().0 == lun,
        lun.page_step().0.settled(),
        lun.page_step().0.blocks() =~= lun.blocks(),
{
    broadcast use vstd::seq_lib::group_to_multiset_ensures;

    let after = lun.page_step().0;
    let f = |pb: PagedBlock| block_of(pb);
    if lun.partially_used.len() > 0 {
        let b0 = lun.partially_used[0];
        let j = b0.first_free();
        assert(b0.in_range());
        lemma_first_free_from(b0.pages, 0);
        let rest = lun.partially_used.drop_first();
        let blk = block_of(b0);
        assert(rest =~= lun.partially_used.remove(0));
        assert(rest.map_values(f) =~= lun.partially_used.map_values(f).remove(0));
        assert(lun.partially_used.map_values(f)[0] == blk);
        assert(rest.map_values(f).to_multiset() =~= lun.partially_used.map_values(f).to_multiset().remove(blk));
        assert(lun.partially_used.map_values(f).to_multiset().count(blk) > 0) by {
            assert(lun.partially_used.map_values(f).contains(blk));
        }
        lemma_first_free_from(b0.pages, j + 1);
        assert forall|k: int| 0 <= k < rest.len() implies (#[trigger] rest[k]).first_free() < rest[k].pages.len() by {
            assert(rest[k] == lun.partially_used[k + 1]);
        }
        if first_free_from(b0.pages, j + 1) >= b0.pages.len() {
            assert(after.used == lun.used.push(blk));
            assert(after.partially_used == rest);
        } else {
            let marked = PagedBlock { pages: b0.pages.update(j, Page::InUse), ..b0 };
            let m = first_free_from(b0.pages, j + 1);
            lemma_first_free_at_most(marked.pages, 0, m);
            assert(after.partially_used == rest.push(marked));
            assert(after.partially_used.map_values(f) =~= rest.map_values(f).push(blk));
            assert forall|k: int| 0 <= k < after.partially_used.len() implies (#[trigger] after.partially_used[k]).first_free()
                < after.partially_used[k].pages.len() by {
                if k < rest.len() {
                    assert(after.partially_used[k] == rest[k]);
                }
            }
        }
    } else if lun.free.len() > 0 {
        let b = lun.free[0];
        let fresh = PagedBlock { id: b.id, plane_id: b.plane_id, pages: fresh_block_pages() };
        assert(lun.free.drop_first() =~= lun.free.remove(0));
        assert(lun.free.to_multiset().count(b) > 0) by {
            assert(lun.free.contains(b));
        }
        assert(lun.partially_used.map_values(f) =~= Seq::<Block>::empty());
        assert(after.partially_used.map_values(f) =~= Seq::<Block>::empty().push(b));
        lemma_first_free_at_most(fresh.pages, 0, 1);
    }
}

impl ChannelModel {
    /// Every LUN of the channel is settled.
    pub open spec fn settled(self) -> bool {
        forall|l: int| 0 <= l < LUNS_PER_CHANNEL ==> (#[trigger] self.luns[l]).settled()
    }
}

impl ProvisionerModel {
    /// Every LUN of every channel is settled.
    pub open spec fn settled(self) -> bool {
        forall|c: int| 0 <= c < N_CHANNELS ==> (#[trigger] self.channels[c]).settled()
    }
}

/// A page request on a settled channel never meets a full used list, keeps the
/// channel settled, and keeps the same blocks on the lists of each of its LUNs.
pub proof fn lemma_channel_page_scan_keeps_blocks(ch: ChannelModel, i: nat)
    requires
        ch.addresses_valid(),
        ch.settled(),
    ensures
        !(ch.page_scan(i).1 is UsedFull),
        ch.page_scan(i).0.settled(),
        ch.page_scan(i).0.luns.len() == LUNS_PER_CHANNEL,
        forall|l: int| 0 <= l < LUNS_PER_CHANNEL ==> (#[trigger] ch.page_scan(i).0.luns[l]).blocks() == ch.luns[l].blocks(),
    decreases LUNS_PER_CHANNEL - i,
{
    if i < LUNS_PER_CHANNEL {
        let l = lun_in_turn(ch.last_lun_picked as int, i as int);
        lemma_lun_page_step_keeps_blocks(ch.luns[l]);
        let (lun, step) = ch.luns[l].page_step();
        let next = ch.with_lun(l, lun);
        assert forall|m: int| 0 <= m < LUNS_PER_CHANNEL implies (#[trigger] next.luns[m]).settled()
            && next.luns[m].blocks() == ch.luns[m].blocks() by {
            if m != l {
                assert(next.luns[m] == ch.luns[m]);
            }
        }
        if step is Skip {
            assert(next.luns =~= ch.luns);
            lemma_channel_page_scan_keeps_blocks(next, i + 1);
        }
    }
}

/// No block is lost or duplicated: a page request on settled lists keeps them settled
/// and keeps on the lists of every LUN exactly the blocks it had, each as often as
/// before; a block only moves from one list of its LUN to another.
pub proof fn lemma_page_scan_keeps_blocks(p: ProvisionerModel, i: nat)
    requires
        p.wf(),
        p.addresses_valid(),
        p.settled(),
    ensures
        p.page_scan(i).0.settled(),
        forall|c: int, l: int|
            0 <= c < N_CHANNELS && 0 <= l < LUNS_PER_CHANNEL ==> (#[trigger] p.page_scan(i).0.channels[c].luns[l]).blocks()
                == p.channels[c].luns[l].blocks(),
    decreases N_CHANNELS - i,
{
    if i < N_CHANNELS {
        let c = channel_in_turn(p.last_channel_provisioned, i as int);
        lemma_channel_page_scan_keeps_blocks(p.channels[c], 0);
        crate::provisioner::provisioner::lemma_channel_page_scan_in_range(p.channels[c], 0);
        let (ch, outcome) = p.channels[c].page_scan(0);
        let next = ProvisionerModel { channels: p.channels.update(c, ch), ..p };
        assert forall|d: int, l: int| 0 <= d < N_CHANNELS && 0 <= l < LUNS_PER_CHANNEL implies (
        #[trigger] next.channels[d].luns[l]).blocks() == p.channels[d].luns[l].blocks() by {
            if d != c {
                assert(next.channels[d] == p.channels[d]);
            }
        }
        assert forall|d: int| 0 <= d < N_CHANNELS implies (#[trigger] next.channels[d]).settled() by {
            if d != c {
                assert(next.channels[d] == p.channels[d]);
            }
        }
        if !(outcome is Granted) {
            assert(next.wf()) by {
                crate::provisioner::provisioner::lemma_channel_page_scan_wf(p.channels[c], 0);
            }
            assert(next.addresses_valid());
            lemma_page_scan_keeps_blocks(next, i + 1);
        }
    }
}

// ---------------------------------------------------------------------------------
// Block requests keep the lists sound
// ---------------------------------------------------------------------------------

/// A block request on a settled LUN with distinct good blocks never finds its used list
/// full; it moves the front free block, which is good and not yet used, to the used
/// list, and keeps the LUN's blocks, their distinctness and goodness, and the pages that
/// cannot be handed out again.
pub proof fn lemma_lun_block_step_keeps(lun: LunModel, t: ChannelBadBlockTable, l: int, issued: Set<LunPage>)
    requires
        lun.distinct(),
        lun.settled(),
        lun.blocks_good(t, l),
        lun.fresh_for(issued),
    ensures
        !(lun.block_step().1 is UsedFull),
        lun.block_step().1 is Skip ==> lun.block_step().0 == lun,
        lun.block_step().1 matches LunBlockStep::Granted(b) ==> good_in(t, l, b) && forall|k: int|
            0 <= k < lun.used.len() ==> lun.used[k] != b,
        lun.block_step().0.distinct(),
        lun.block_step().0.settled(),
        lun.block_step().0.blocks_good(t, l),
        lun.block_step().0.fresh_for(issued),
        lun.block_step().0.blocks() =~= lun.blocks(),
{
    broadcast use vstd::seq_lib::group_to_multiset_ensures;

    if lun.free.len() > 0 {
        let after = lun.block_step().0;
        let b = lun.free[0];
        assert(good_in(t, l, b));
        assert(lun.free.drop_first() =~= lun.free.remove(0));
        assert(lun.free.to_multiset().count(b) > 0) by {
            assert(lun.free.contains(b));
        }
        assert forall|i: int, j: int| 0 <= i < j < after.free.len() implies after.free[i] != after.free[j] by {
            assert(after.free[i] == lun.free[i + 1]);
            assert(after.free[j] == lun.free[j + 1]);
        }
        assert forall|i: int, j: int| 0 <= i < j < after.used.len() implies after.used[i] != after.used[j] by {
            assert(after.used[i] == lun.used[i]);
            if j < lun.used.len() {
                assert(after.used[j] == lun.used[j]);
            } else {
                assert(lun.free[0] != lun.used[i]);
            }
        }
        assert forall|i: int, k: int| 0 <= i < after.free.len() && 0 <= k < after.used.len() implies after.free[i]
            != after.used[k] by {
            assert(after.free[i] == lun.free[i + 1]);
            if k < lun.used.len() {
                assert(after.used[k] == lun.used[k]);
            } else {
                assert(lun.free[0] != lun.free[i + 1]);
            }
        }
        assert forall|i: int, k: int| 0 <= i < after.used.len() && 0 <= k < after.partially_used.len() implies after.used[i]
            != block_of(after.partially_used[k]) by {
            if i < lun.used.len() {
                assert(after.used[i] == lun.used[i]);
            } else {
                assert(lun.free[0] != block_of(lun.partially_used[k]));
            }
        }
        assert forall|i: int, k: int| 0 <= i < after.free.len() && 0 <= k < after.partially_used.len() implies after.free[i]
            != block_of(after.partially_used[k]) by {
            assert(after.free[i] == lun.free[i + 1]);
        }
        assert forall|k: int| 0 <= k < after.free.len() implies good_in(t, l, #[trigger] after.free[k]) by {
            assert(after.free[k] == lun.free[k + 1]);
        }
        assert forall|k: int| 0 <= k < after.used.len() implies good_in(t, l, #[trigger] after.used[k]) by {
            if k < lun.used.len() {
                assert(after.used[k] == lun.used[k]);
            }
        }
        assert forall|x: LunPage, i: int| issued.contains(x) && 0 <= i < after.free.len() implies after.free[i] != x.0 by {
            assert(after.free[i] == lun.free[i + 1]);
        }
    }
}

impl ChannelModel {
    /// The channel's LUNs are settled and list only distinct blocks that are good in `t`,
    /// and none of the pages `issued` can be handed out again.
    pub open spec fn sound(self, t: ChannelBadBlockTable, issued: Set<PhysicalPageAddress>) -> bool {
        &&& self.distinct()
        &&& self.settled()
        &&& self.blocks_good(t)
        &&& self.fresh_for(issued)
    }
}

impl ProvisionerModel {
    /// Every channel is sound with respect to its own table.
    pub open spec fn sound(self, bbt: BadBlockTable, issued: Set<PhysicalPageAddress>) -> bool {
        forall|c: int| 0 <= c < N_CHANNELS ==> (#[trigger] self.channels[c]).sound(bbt.channel_bad_block_tables@[c], issued)
    }
}

/// A block request on a sound channel never meets a full used list, keeps the channel
/// sound and the blocks of each LUN, and grants a good block of one of its LUNs.
pub proof fn lemma_channel_block_scan_keeps(
    ch: ChannelModel,
    t: ChannelBadBlockTable,
    issued: Set<PhysicalPageAddress>,
    i: nat,
)
    requires
        ch.luns.len() == LUNS_PER_CHANNEL,
        ch.sound(t, issued),
    ensures
        !(ch.block_scan(i).1 is UsedFull),
        ch.block_scan(i).0.sound(t, issued),
        ch.block_scan(i).0.luns.len() == LUNS_PER_CHANNEL,
        ch.block_scan(i).0.channel_id == ch.channel_id,
        forall|l: int| 0 <= l < LUNS_PER_CHANNEL ==> (#[trigger] ch.block_scan(i).0.luns[l]).blocks() == ch.luns[l].blocks(),
        ch.block_scan(i).1 matches ChannelBlockOutcome::Granted(pba) ==> {
            &&& pba.channel_id == ch.channel_id
            &&& pba.lun_id < LUNS_PER_CHANNEL
            &&& good_in(t, pba.lun_id as int, Block { id: pba.block_id, plane_id: pba.plane_id })
        },
    decreases LUNS_PER_CHANNEL - i,
{
    if i < LUNS_PER_CHANNEL {
        let l = lun_in_turn(ch.last_lun_picked as int, i as int);
        lemma_lun_block_step_keeps(ch.luns[l], t, l, lun_pages(issued, ch.channel_id, l));
        let (lun, step) = ch.luns[l].block_step();
        let next = ch.with_lun(l, lun);
        assert forall|m: int| 0 <= m < LUNS_PER_CHANNEL implies {
            &&& (#[trigger] next.luns[m]).distinct()
            &&& next.luns[m].settled()
            &&& next.luns[m].blocks_good(t, m)
            &&& next.luns[m].fresh_for(lun_pages(issued, next.channel_id, m))
            &&& next.luns[m].blocks() == ch.luns[m].blocks()
        } by {
            if m != l {
                assert(next.luns[m] == ch.luns[m]);
            }
        }
        if step is Skip {
            assert(next.luns =~= ch.luns);
            lemma_channel_block_scan_keeps(next, t, issued, i + 1);
        }
    }
}

/// Block requests keep the lists sound: a block request never meets a full used list,
/// keeps every channel sound and every LUN's blocks, and the block it grants is good in
/// the table of the granting channel.
pub proof fn lemma_block_scan_keeps(p: ProvisionerModel, bbt: BadBlockTable, issued: Set<PhysicalPageAddress>, i: nat)
    requires
        p.wf(),
        p.sound(bbt, issued),
    ensures
        p.block_scan(i).0.sound(bbt, issued),
        forall|c: int, l: int|
            0 <= c < N_CHANNELS && 0 <= l < LUNS_PER_CHANNEL ==> (#[trigger] p.block_scan(i).0.channels[c].luns[l]).blocks()
                == p.channels[c].luns[l].blocks(),
        p.block_scan(i).1 matches Some((c, pba)) ==> {
            &&& 0 <= c < N_CHANNELS
            &&& pba.channel_id == p.channels[c].channel_id
            &&& good_in(
                bbt.channel_bad_block_tables@[c],
                pba.lun_id as int,
                Block { id: pba.block_id, plane_id: pba.plane_id },
            )
        },
    decreases N_CHANNELS - i,
{
    if i < N_CHANNELS {
        let c = channel_in_turn(p.last_channel_provisioned, i as int);
        lemma_channel_block_scan_keeps(p.channels[c], bbt.channel_bad_block_tables@[c], issued, 0);
        let (ch, outcome) = p.channels[c].block_scan(0);
        let next = ProvisionerModel { channels: p.channels.update(c, ch), ..p };
        assert forall|d: int| 0 <= d < N_CHANNELS implies (#[trigger] next.channels[d]).sound(
            bbt.channel_bad_block_tables@[d],
            issued,
        ) && next.channels[d].channel_id == p.channels[d].channel_id by {
            if d != c {
                assert(next.channels[d] == p.channels[d]);
            }
        }
        assert forall|d: int, l: int| 0 <= d < N_CHANNELS && 0 <= l < LUNS_PER_CHANNEL implies (
        #[trigger] next.channels[d].luns[l]).blocks() == p.channels[d].luns[l].blocks() by {
            if d != c {
                assert(next.channels[d] == p.channels[d]);
            }
        }
        if !(outcome is Granted) {
            assert(next.wf()) by {
                crate::provisioner::provisioner::lemma_channel_block_scan_wf(p.channels[c], 0);
            }
            lemma_block_scan_keeps(next, bbt, issued, i + 1);
        }
    }
}

/// A page request on a settled channel from its `i`-th LUN in turn on finds no page
/// exactly when none of the LUNs it visits has a partly written or free block, and then
/// leaves the channel as it was.
proof fn lemma_channel_page_scan_none(ch: ChannelModel, i: nat)
    requires
        ch.addresses_valid(),
        ch.settled(),
    ensures
        ch.page_scan(i).1 is NoFreePage <==> forall|m: int|
            i <= m < LUNS_PER_CHANNEL ==> {
                &&& (#[trigger] ch.luns[lun_in_turn(ch.last_lun_picked as int, m)]).partially_used.len() == 0
                &&& ch.luns[lun_in_turn(ch.last_lun_picked as int, m)].free.len() == 0
            },
        ch.page_scan(i).1 is NoFreePage ==> ch.page_scan(i).0 == ch,
    decreases LUNS_PER_CHANNEL - i,
{
    if i < LUNS_PER_CHANNEL {
        let l = lun_in_turn(ch.last_lun_picked as int, i as int);
        lemma_lun_page_step_keeps_blocks(ch.luns[l]);
        let (lun, step) = ch.luns[l].page_step();
        if step is Skip {
            let next = ch.with_lun(l, lun);
            assert(next.luns =~= ch.luns);
            assert(next == ch);
            lemma_channel_page_scan_none(next, i + 1);
        }
    }
}

/// A page request on a settled channel never fails for a full used list; it fails for
/// want of a free page exactly when no LUN has a partly written or free block, and then
/// leaves the channel as it was.
pub proof fn lemma_channel_page_request_fails_only_when_empty(ch: ChannelModel)
    requires
        ch.addresses_valid(),
        ch.settled(),
    ensures
        !(ch.page_scan(0).1 is UsedFull),
        ch.page_scan(0).1 is NoFreePage <==> forall|l: int|
            0 <= l < LUNS_PER_CHANNEL ==> (#[trigger] ch.luns[l]).partially_used.len() == 0 && ch.luns[l].free.len()
                == 0,
        ch.page_scan(0).1 is NoFreePage ==> ch.page_scan(0).0 == ch,
{
    lemma_channel_page_scan_keeps_blocks(ch, 0);
    lemma_channel_page_scan_none(ch, 0);
    let last = ch.last_lun_picked as int;
    if ch.page_scan(0).1 is NoFreePage {
        assert forall|l: int| 0 <= l < LUNS_PER_CHANNEL implies (#[trigger] ch.luns[l]).partially_used.len() == 0
            && ch.luns[l].free.len() == 0 by {
            let k = if l > last { l - last - 1 } else { l + LUNS_PER_CHANNEL - last - 1 };
            assert(0 <= k < LUNS_PER_CHANNEL);
            assert(lun_in_turn(last, k) == l);
            assert(ch.luns[lun_in_turn(last, k)].partially_used.len() == 0);
        }
    }
}

/// A page request keeps the provisioner well formed.
pub proof fn lemma_page_scan_wf(p: ProvisionerModel, i: nat)
    requires
        p.wf(),
    ensures
        p.page_scan(i).0.wf(),
    decreases N_CHANNELS - i,
{
    if i < N_CHANNELS {
        let c = channel_in_turn(p.last_channel_provisioned, i as int);
        crate::provisioner::provisioner::lemma_channel_page_scan_wf(p.channels[c], 0);
        let (ch, outcome) = p.channels[c].page_scan(0);
        let next = ProvisionerModel { channels: p.channels.update(c, ch), ..p };
        assert(next.wf());
        if !(outcome is Granted) {
            lemma_page_scan_wf(next, i + 1);
        }
    }
}

// ---------------------------------------------------------------------------------
// Round-robin positions follow the grants
// ---------------------------------------------------------------------------------

/// A page granted by a channel comes from one of its LUNs, which becomes the channel's
/// round-robin position, whether the page came from a partly written block or from a
/// block just opened.
pub proof fn lemma_page_grant_sets_lun(ch: ChannelModel, i: nat)
    ensures
        ch.page_scan(i).1 matches ChannelPageOutcome::Granted(ppa) ==> {
            &&& ppa.lun_id < LUNS_PER_CHANNEL
            &&& ppa.channel_id == ch.channel_id
            &&& ch.page_scan(i).0.last_lun_picked == ppa.lun_id
        },
    decreases LUNS_PER_CHANNEL - i,
{
    if i < LUNS_PER_CHANNEL {
        let l = lun_in_turn(ch.last_lun_picked as int, i as int);
        let (lun, step) = ch.luns[l].page_step();
        if step is Skip {
            lemma_page_grant_sets_lun(ch.with_lun(l, lun), i + 1);
        }
    }
}

/// A page granted by the provisioner comes from one of its channels, which becomes the
/// provisioner's round-robin position.
pub proof fn lemma_page_grant_sets_channel(p: ProvisionerModel, i: nat)
    requires
        0 <= p.last_channel_provisioned,
    ensures
        p.page_scan(i).1 matches Some((c, ppa)) ==> {
            &&& 0 <= c < N_CHANNELS
            &&& p.page_scan(i).0.last_channel_provisioned == c
        },
    decreases N_CHANNELS - i,
{
    if i < N_CHANNELS {
        let c = channel_in_turn(p.last_channel_provisioned, i as int);
        let (ch, outcome) = p.channels[c].page_scan(0);
        if !(outcome is Granted) {
            lemma_page_grant_sets_channel(ProvisionerModel { channels: p.channels.update(c, ch), ..p }, i + 1);
        }
    }
}

/// A block granted by the provisioner comes from one of its channels, which becomes the
/// provisioner's round-robin position.
pub proof fn lemma_block_grant_sets_channel(p: ProvisionerModel, i: nat)
    requires
        0 <= p.last_channel_provisioned,
    ensures
        p.block_scan(i).1 matches Some((c, pba)) ==> {
            &&& 0 <= c < N_CHANNELS
            &&& p.block_scan(i).0.last_channel_provisioned == c
        },
    decreases N_CHANNELS - i,
{
    if i < N_CHANNELS {
        let c = channel_in_turn(p.last_channel_provisioned, i as int);
        let (ch, outcome) = p.channels[c].block_scan(0);
        if !(outcome is Granted) {
            lemma_block_grant_sets_channel(ProvisionerModel { channels: p.channels.update(c, ch), ..p }, i + 1);
        }
    }
}

/// A page request that is granted by the LUN of the channel's previous pick found no page
/// in any LUN it visited before, from the `i`-th on.
proof fn lemma_page_scan_back_to_last(ch: ChannelModel, i: nat)
    requires
        ch.luns.len() == LUNS_PER_CHANNEL,
        ch.last_lun_picked < LUNS_PER_CHANNEL,
    ensures
        ch.page_scan(i).1 matches ChannelPageOutcome::Granted(ppa) && ppa.lun_id == ch.last_lun_picked ==> forall|m: int|
            i <= m < LUNS_PER_CHANNEL - 1 ==> (#[trigger] ch.luns[lun_in_turn(ch.last_lun_picked as int, m)]).page_step().1 is Skip,
    decreases LUNS_PER_CHANNEL - i,
{
    if i < LUNS_PER_CHANNEL {
        let last = ch.last_lun_picked as int;
        let l = lun_in_turn(last, i as int);
        let (lun, step) = ch.luns[l].page_step();
        if step is Skip {
            let next = ch.with_lun(l, lun);
            lemma_page_scan_back_to_last(next, i + 1);
            assert forall|m: int| i + 1 <= m < LUNS_PER_CHANNEL - 1 implies next.luns[lun_in_turn(last, m)] == ch.luns[lun_in_turn(last, m)] by {
                assert(lun_in_turn(last, m) != l);
            }
        } else if i < LUNS_PER_CHANNEL - 1 {
            assert(l != last);
        }
    }
}

/// Consecutive pages of a channel come from different LUNs unless no other LUN has a page
/// to give: when two page requests in a row are both granted from the same LUN, every
/// other LUN offered no page after the first.
pub proof fn lemma_consecutive_pages_from_different_luns(ch: ChannelModel)
    requires
        ch.wf(),
    ensures
        ({
            let (ch1, first) = ch.page_scan(0);
            let (ch2, second) = ch1.page_scan(0);
            match (first, second) {
                (ChannelPageOutcome::Granted(a), ChannelPageOutcome::Granted(b)) => a.lun_id == b.lun_id
                    ==> forall|m: int|
                    0 <= m < LUNS_PER_CHANNEL && m != a.lun_id ==> (#[trigger] ch1.luns[m]).page_step().1 is Skip,
                _ => true,
            }
        }),
{
    let (ch1, first) = ch.page_scan(0);
    lemma_page_grant_sets_lun(ch, 0);
    crate::provisioner::provisioner::lemma_channel_page_scan_wf(ch, 0);
    if let ChannelPageOutcome::Granted(a) = first {
        lemma_page_scan_back_to_last(ch1, 0);
        let last = a.lun_id as int;
        assert forall|m: int| 0 <= m < LUNS_PER_CHANNEL && m != last && (ch1.page_scan(0).1 matches ChannelPageOutcome::Granted(b)
            && b.lun_id == a.lun_id) implies (#[trigger] ch1.luns[m]).page_step().1 is Skip by {
            let k = if m > last { m - last - 1 } else { m + LUNS_PER_CHANNEL - last - 1 };
            assert(0 <= k < LUNS_PER_CHANNEL - 1);
            assert(lun_in_turn(last, k) == m);
        }
    }
}

/// A page request that is granted by the provisioner's previously picked channel found
/// no page in any channel it visited before, from the `i`-th on.
proof fn lemma_page_scan_back_to_last_channel(p: ProvisionerModel, i: nat)
    requires
        p.channels.len() == N_CHANNELS,
        0 <= p.last_channel_provisioned < N_CHANNELS,
    ensures
        p.page_scan(i).1 matches Some((c, ppa)) && c == p.last_channel_provisioned ==> forall|m: int|
            i <= m < N_CHANNELS - 1 ==> !((#[trigger] p.channels[channel_in_turn(p.last_channel_provisioned, m)]).page_scan(
                0,
            ).1 is Granted),
    decreases N_CHANNELS - i,
{
    if i < N_CHANNELS {
        let last = p.last_channel_provisioned;
        let c = channel_in_turn(last, i as int);
        let (ch, outcome) = p.channels[c].page_scan(0);
        if !(outcome is Granted) {
            let next = ProvisionerModel { channels: p.channels.update(c, ch), ..p };
            lemma_page_scan_back_to_last_channel(next, i + 1);
            assert forall|m: int| i + 1 <= m < N_CHANNELS - 1 implies next.channels[channel_in_turn(last, m)]
                == p.channels[channel_in_turn(last, m)] by {
                assert(channel_in_turn(last, m) != c);
            }
        } else if i < N_CHANNELS - 1 {
            assert(c != last);
        }
    }
}

/// Consecutive pages come from different channels unless no other channel has a page to
/// give: when two page requests in a row are both granted by the same channel, every
/// other channel answered the request without a page after the first.
pub proof fn lemma_consecutive_pages_from_different_channels(p: ProvisionerModel)
    requires
        p.wf(),
    ensures
        ({
            let (p1, first) = p.page_scan(0);
            let (p2, second) = p1.page_scan(0);
            match (first, second) {
                (Some((c1, a)), Some((c2, b))) => c1 == c2 ==> forall|d: int|
                    0 <= d < N_CHANNELS && d != c1 ==> !((#[trigger] p1.channels[d]).page_scan(0).1 is Granted),
                _ => true,
            }
        }),
{
    let (p1, first) = p.page_scan(0);
    lemma_page_grant_sets_channel(p, 0);
    lemma_page_scan_wf(p, 0);
    if let Some((c1, a)) = first {
        lemma_page_scan_back_to_last_channel(p1, 0);
        assert forall|d: int| 0 <= d < N_CHANNELS && d != c1 && (p1.page_scan(0).1 matches Some((c2, b)) && c2 == c1) implies !((
        #[trigger] p1.channels[d]).page_scan(0).1 is Granted) by {
            let k = if d > c1 { d - c1 - 1 } else { d + N_CHANNELS - c1 - 1 };
            assert(0 <= k < N_CHANNELS - 1);
            assert(channel_in_turn(c1, k) == d);
        }
    }
}

} // verus!
