use vstd::prelude::*;

use crate::config::{LUNS_PER_CHANNEL, N_CHANNELS, PAGES_PER_BLOCK};
use crate::device::address::PhysicalPageAddress;
use crate::page_provisioner::provisioner::{
    first_unused_from, opened_block_pages, CheckedChannelModel, CheckedLunModel, CheckedProvisionerModel,
    PagedBlockModel,
};

verus! {

/// A block of a LUN: its (block id, plane id).
pub type BlockKey = (usize, usize);

/// A page of a LUN: its block and its index in the block.
pub type PageKey = (BlockKey, usize);

/// The block a partly written block stands for.
pub open spec fn key_of(pb: PagedBlockModel) -> BlockKey {
    (pb.0, pb.1)
}

/// `first_unused_from` finds the first unused page at or after `j`, or reports the length.
proof fn lemma_first_unused_from(pages: Seq<bool>, j: int)
    requires
        0 <= j <= pages.len(),
    ensures
        j <= first_unused_from(pages, j) <= pages.len(),
        first_unused_from(pages, j) < pages.len() ==> !pages[first_unused_from(pages, j)],
    decreases pages.len() - j,
{
    if j < pages.len() && pages[j] {
        lemma_first_unused_from(pages, j + 1);
    }
}

impl CheckedLunModel {
    /// Every partly written block has one flag per page.
    pub open spec fn shaped(self) -> bool {
        forall|k: int| 0 <= k < self.partially_used.len() ==> (#[trigger] self.partially_used[k]).2.len()
            == PAGES_PER_BLOCK
    }

    /// No block is on both the free and the partly written list, nor twice on either.
    pub open spec fn distinct(self) -> bool {
        &&& forall|i: int, j: int| 0 <= i < j < self.free.len() ==> self.free[i] != self.free[j]
        &&& forall|i: int, k: int|
            0 <= i < self.free.len() && 0 <= k < self.partially_used.len() ==> self.free[i] != key_of(
                self.partially_used[k],
            )
        &&& forall|i: int, j: int|
            0 <= i < j < self.partially_used.len() ==> key_of(self.partially_used[i]) != key_of(
                self.partially_used[j],
            )
    }

    /// No page of `issued` can be handed out again: none lies in a free block, and none
    /// is marked unused in a partly written block.
    pub open spec fn fresh_for(self, issued: Set<PageKey>) -> bool {
        &&& forall|x: PageKey, i: int|
            #![trigger issued.contains(x), self.free[i]]
            issued.contains(x) && 0 <= i < self.free.len() ==> self.free[i] != x.0
        &&& forall|x: PageKey, k: int|
            #![trigger issued.contains(x), self.partially_used[k]]
            issued.contains(x) && 0 <= k < self.partially_used.len() && key_of(self.partially_used[k]) == x.0
                && (x.1 as int) < self.partially_used[k].2.len() ==> self.partially_used[k].2[x.1 as int]
        }
}

/// A page request on LUN `l` of a channel with distinct lists hands out a page that was
/// not handed out before, after which neither it nor any page handed out before can be
/// handed out again.
proof fn lemma_lun_page_step_fresh(ch: CheckedChannelModel, l: int, issued: Set<PageKey>)
    requires
        ch.luns[l].shaped(),
        ch.luns[l].distinct(),
        ch.luns[l].fresh_for(issued),
    ensures
        ch.lun_page_step(l).0.shaped(),
        ch.lun_page_step(l).0.distinct(),
        match ch.lun_page_step(l).1 {
            Some(ppa) => {
                let x = ((ppa.block_id, ppa.plane_id), ppa.page_id);
                &&& ppa.channel_id == ch.channel_id
                &&& ppa.lun_id == l as usize
                &&& !issued.contains(x)
                &&& ch.lun_page_step(l).0.fresh_for(issued.insert(x))
            },
            None => ch.lun_page_step(l).0.fresh_for(issued),
        },
{
    let lun = ch.luns[l];
    let (after, granted) = ch.lun_page_step(l);
    if lun.partially_used.len() > 0 {
        let b0 = lun.partially_used[0];
        let blk = key_of(b0);
        let j = first_unused_from(b0.2, 0);
        lemma_first_unused_from(b0.2, 0);
        let rest = lun.partially_used.drop_first();
        assert forall|i: int, k: int| 0 <= i < k < rest.len() implies key_of(rest[i]) != key_of(rest[k]) by {
            assert(rest[i] == lun.partially_used[i + 1]);
            assert(rest[k] == lun.partially_used[k + 1]);
        }
        if j < PAGES_PER_BLOCK {
            lemma_first_unused_from(b0.2, j + 1);
            let x = (blk, j as usize);
            if issued.contains(x) {
                assert(lun.partially_used[0].2[x.1 as int]);
            }
            let issued2 = issued.insert(x);
            assert forall|y: PageKey, i: int| issued2.contains(y) && 0 <= i < after.free.len() implies after.free[i]
                != y.0 by {
                assert(after.free[i] == lun.free[i]);
                if y == x {
                    assert(lun.free[i] != key_of(lun.partially_used[0]));
                } else {
                    assert(issued.contains(y));
                }
            }
            if first_unused_from(b0.2, j + 1) >= PAGES_PER_BLOCK {
                assert forall|y: PageKey, k: int|
                    issued2.contains(y) && 0 <= k < after.partially_used.len() && key_of(after.partially_used[k])
                        == y.0 && (y.1 as int) < after.partially_used[k].2.len() implies after.partially_used[k].2[y.1 as int] by {
                    assert(after.partially_used[k] == lun.partially_used[k + 1]);
                    if y == x {
                        assert(key_of(lun.partially_used[0]) != key_of(lun.partially_used[k + 1]));
                    } else {
                        assert(issued.contains(y));
                    }
                }
                assert(after.distinct()) by {
                    assert forall|i: int, k: int| 0 <= i < after.free.len() && 0 <= k < after.partially_used.len()
                        implies after.free[i] != key_of(after.partially_used[k]) by {
                        assert(after.partially_used[k] == lun.partially_used[k + 1]);
                    }
                }
                assert forall|k: int| 0 <= k < after.partially_used.len() implies (#[trigger] after.partially_used[k]).2.len()
                    == PAGES_PER_BLOCK by {
                    assert(after.partially_used[k] == lun.partially_used[k + 1]);
                }
            } else {
                let marked = (b0.0, b0.1, b0.2.update(j, true));
                assert(after.partially_used == rest.push(marked));
                assert forall|y: PageKey, k: int|
                    issued2.contains(y) && 0 <= k < after.partially_used.len() && key_of(after.partially_used[k])
                        == y.0 && (y.1 as int) < after.partially_used[k].2.len() implies after.partially_used[k].2[y.1 as int] by {
                    if k < rest.len() {
                        assert(after.partially_used[k] == lun.partially_used[k + 1]);
                        if y == x {
                            assert(key_of(lun.partially_used[0]) != key_of(lun.partially_used[k + 1]));
                        } else {
                            assert(issued.contains(y));
                        }
                    } else {
                        assert(after.partially_used[k] == marked);
                        if y == x {
                            assert(marked.2[j]);
                        } else {
                            assert(issued.contains(y));
                            assert(lun.partially_used[0].2[y.1 as int]);
                        }
                    }
                }
                assert(after.distinct()) by {
                    assert forall|i: int, k: int| 0 <= i < after.free.len() && 0 <= k < after.partially_used.len()
                        implies after.free[i] != key_of(after.partially_used[k]) by {
                        if k < rest.len() {
                            assert(after.partially_used[k] == lun.partially_used[k + 1]);
                        } else {
                            assert(key_of(after.partially_used[k]) == key_of(lun.partially_used[0]));
                        }
                    }
                    assert forall|i: int, k: int| 0 <= i < k < after.partially_used.len() implies key_of(
                        after.partially_used[i],
                    ) != key_of(after.partially_used[k]) by {
                        assert(after.partially_used[i] == lun.partially_used[i + 1]);
                        if k < rest.len() {
                            assert(after.partially_used[k] == lun.partially_used[k + 1]);
                        } else {
                            assert(key_of(after.partially_used[k]) == key_of(lun.partially_used[0]));
                        }
                    }
                }
                assert forall|k: int| 0 <= k < after.partially_used.len() implies (#[trigger] after.partially_used[k]).2.len()
                    == PAGES_PER_BLOCK by {
                    if k < rest.len() {
                        assert(after.partially_used[k] == lun.partially_used[k + 1]);
                    }
                }
            }
        } else {
            assert forall|y: PageKey, k: int|
                issued.contains(y) && 0 <= k < after.partially_used.len() && key_of(after.partially_used[k]) == y.0
                    && (y.1 as int) < after.partially_used[k].2.len() implies after.partially_used[k].2[y.1 as int] by {
                assert(after.partially_used[k] == lun.partially_used[k + 1]);
            }
            assert(after.distinct()) by {
                assert forall|i: int, k: int| 0 <= i < after.free.len() && 0 <= k < after.partially_used.len()
                    implies after.free[i] != key_of(after.partially_used[k]) by {
                    assert(after.partially_used[k] == lun.partially_used[k + 1]);
                }
            }
            assert forall|k: int| 0 <= k < after.partially_used.len() implies (#[trigger] after.partially_used[k]).2.len()
                == PAGES_PER_BLOCK by {
                assert(after.partially_used[k] == lun.partially_used[k + 1]);
            }
        }
    } else if lun.free.len() > 0 {
        let f = lun.free[0];
        assert forall|i: int, k: int| 0 <= i < k < after.free.len() implies after.free[i] != after.free[k] by {
            assert(after.free[i] == lun.free[i + 1]);
            assert(after.free[k] == lun.free[k + 1]);
        }
        if ch.good(l, f.1, f.0) {
            let x = (f, 0usize);
            if issued.contains(x) {
                assert(lun.free[0] != x.0);
            }
            let issued2 = issued.insert(x);
            assert forall|y: PageKey, i: int| issued2.contains(y) && 0 <= i < after.free.len() implies after.free[i]
                != y.0 by {
                assert(after.free[i] == lun.free[i + 1]);
                if y == x {
                    assert(lun.free[0] != lun.free[i + 1]);
                } else {
                    assert(issued.contains(y));
                }
            }
            assert forall|y: PageKey, k: int|
                issued2.contains(y) && 0 <= k < after.partially_used.len() && key_of(after.partially_used[k]) == y.0
                    && (y.1 as int) < after.partially_used[k].2.len() implies after.partially_used[k].2[y.1 as int] by {
                assert(k == 0);
                assert(key_of(after.partially_used[0]) == f);
                if y == x {
                    assert(opened_block_pages()[0]);
                } else {
                    assert(issued.contains(y));
                    assert(lun.free[0] != y.0);
                }
            }
            assert(after.distinct()) by {
                assert forall|i: int, k: int| 0 <= i < after.free.len() && 0 <= k < after.partially_used.len()
                    implies after.free[i] != key_of(after.partially_used[k]) by {
                    assert(after.free[i] == lun.free[i + 1]);
                    assert(lun.free[0] != lun.free[i + 1]);
                }
            }
        } else {
            assert forall|y: PageKey, i: int| issued.contains(y) && 0 <= i < after.free.len() implies after.free[i]
                != y.0 by {
                assert(after.free[i] == lun.free[i + 1]);
            }
            assert(after.distinct()) by {
                assert forall|i: int, k: int| 0 <= i < after.free.len() && 0 <= k < after.partially_used.len()
                    implies after.free[i] != key_of(after.partially_used[k]) by {
                    assert(after.free[i] == lun.free[i + 1]);
                }
            }
        }
    }
}

/// The pages of `issued` that lie in LUN `l` of channel `cid`.
pub open spec fn lun_pages(issued: Set<PhysicalPageAddress>, cid: usize, l: int) -> Set<PageKey> {
    Set::new(
        |x: PageKey|
            issued.contains(
                PhysicalPageAddress {
                    channel_id: cid,
                    lun_id: l as usize,
                    plane_id: x.0.1,
                    block_id: x.0.0,
                    page_id: x.1,
                },
            ),
    )
}

impl CheckedChannelModel {
    /// One model per LUN, each with distinct lists and one flag per page of its partly
    /// written blocks.
    pub open spec fn ready(self) -> bool {
        &&& self.luns.len() == LUNS_PER_CHANNEL
        &&& forall|l: int| 0 <= l < LUNS_PER_CHANNEL ==> (#[trigger] self.luns[l]).shaped() && self.luns[l].distinct()
    }

    /// No page of `issued` in this channel can be handed out again.
    pub open spec fn fresh_for(self, issued: Set<PhysicalPageAddress>) -> bool {
        forall|l: int|
            0 <= l < LUNS_PER_CHANNEL ==> (#[trigger] self.luns[l]).fresh_for(lun_pages(issued, self.channel_id, l))
    }
}

impl CheckedProvisionerModel {
    /// One ready channel per index, the channel at index `c` with id `c`.
    pub open spec fn ready(self) -> bool {
        &&& self.channels.len() == N_CHANNELS
        &&& 0 <= self.last_channel_provisioned
        &&& forall|c: int| 0 <= c < N_CHANNELS ==> (#[trigger] self.channels[c]).ready() && self.channels[c].channel_id == c
    }

    /// No page of `issued` can be handed out again.
    pub open spec fn fresh_for(self, issued: Set<PhysicalPageAddress>) -> bool {
        forall|c: int| 0 <= c < N_CHANNELS ==> (#[trigger] self.channels[c]).fresh_for(issued)
    }
}

/// A page request on a ready channel hands out a page of that channel not handed out
/// before, after which neither it nor any page handed out before can be handed out again.
pub proof fn lemma_channel_page_scan_fresh(ch: CheckedChannelModel, issued: Set<PhysicalPageAddress>, k: nat)
    requires
        ch.ready(),
        ch.fresh_for(issued),
    ensures
        ch.page_scan(k).0.ready(),
        ch.page_scan(k).0.channel_id == ch.channel_id,
        match ch.page_scan(k).1 {
            Some(ppa) => {
                &&& ppa.channel_id == ch.channel_id
                &&& !issued.contains(ppa)
                &&& ch.page_scan(k).0.fresh_for(issued.insert(ppa))
            },
            None => ch.page_scan(k).0.fresh_for(issued),
        },
    decreases LUNS_PER_CHANNEL - k,
{
    if k < LUNS_PER_CHANNEL {
        let l = (ch.last_lun_picked + 1) % (LUNS_PER_CHANNEL as int);
        let cid = ch.channel_id;
        let own = lun_pages(issued, cid, l);
        lemma_lun_page_step_fresh(ch, l, own);
        let (lun, granted) = ch.lun_page_step(l);
        let next = CheckedChannelModel { luns: ch.luns.update(l, lun), last_lun_picked: l as usize, ..ch };
        assert(next.ready()) by {
            assert forall|m: int| 0 <= m < LUNS_PER_CHANNEL implies (#[trigger] next.luns[m]).shaped()
                && next.luns[m].distinct() by {
                if m != l {
                    assert(next.luns[m] == ch.luns[m]);
                }
            }
        }
        match granted {
            Some(ppa) => {
                let x = ((ppa.block_id, ppa.plane_id), ppa.page_id);
                assert(own.contains(x) == issued.contains(ppa));
                let issued2 = issued.insert(ppa);
                assert forall|m: int| 0 <= m < LUNS_PER_CHANNEL implies (#[trigger] next.luns[m]).fresh_for(
                    lun_pages(issued2, cid, m),
                ) by {
                    if m == l {
                        assert(lun_pages(issued2, cid, m) =~= own.insert(x));
                    } else {
                        assert(lun_pages(issued2, cid, m) =~= lun_pages(issued, cid, m));
                        assert(next.luns[m] == ch.luns[m]);
                    }
                }
            },
            None => {
                assert forall|m: int| 0 <= m < LUNS_PER_CHANNEL implies (#[trigger] next.luns[m]).fresh_for(
                    lun_pages(issued, cid, m),
                ) by {
                    if m != l {
                        assert(next.luns[m] == ch.luns[m]);
                    }
                }
                lemma_channel_page_scan_fresh(next, issued, k + 1);
            },
        }
    }
}

/// No page is handed out twice: a page request on a ready provisioner hands out a page
/// that is not among the pages `issued` before, after which no page of `issued`, nor
/// the new one, can be handed out again, and the provisioner stays ready.
pub proof fn lemma_page_request_fresh(p: CheckedProvisionerModel, issued: Set<PhysicalPageAddress>)
    requires
        p.ready(),
        p.fresh_for(issued),
    ensures
        p.page_request().0.ready(),
        match p.page_request().1 {
            Some(ppa) => {
                &&& !issued.contains(ppa)
                &&& p.page_request().0.fresh_for(issued.insert(ppa))
            },
            None => p.page_request().0.fresh_for(issued),
        },
{
    let c = p.next_channel();
    lemma_channel_page_scan_fresh(p.channels[c], issued, 0);
    let (ch, granted) = p.channels[c].page_scan(0);
    let after = p.page_request().0;
    assert forall|d: int| 0 <= d < N_CHANNELS implies (#[trigger] after.channels[d]).ready()
        && after.channels[d].channel_id == d by {
        if d != c {
            assert(after.channels[d] == p.channels[d]);
        }
    }
    match granted {
        Some(ppa) => {
            let issued2 = issued.insert(ppa);
            assert forall|d: int| 0 <= d < N_CHANNELS implies (#[trigger] after.channels[d]).fresh_for(issued2) by {
                if d != c {
                    let chd = p.channels[d];
                    assert(after.channels[d] == chd);
                    assert forall|m: int| 0 <= m < LUNS_PER_CHANNEL implies (#[trigger] chd.luns[m]).fresh_for(
                        lun_pages(issued2, chd.channel_id, m),
                    ) by {
                        assert(lun_pages(issued2, chd.channel_id, m) =~= lun_pages(issued, chd.channel_id, m));
                    }
                }
            }
        },
        None => {
            assert forall|d: int| 0 <= d < N_CHANNELS implies (#[trigger] after.channels[d]).fresh_for(issued) by {
                if d != c {
                    assert(after.channels[d] == p.channels[d]);
                }
            }
        },
    }
}

/// A provisioner whose lists are all empty, with the channel at index `c` of id `c`, as
/// `GlobalProvisoner::new` builds it, is ready and has handed out no page yet.
pub proof fn lemma_empty_lists_ready(p: CheckedProvisionerModel)
    requires
        p.channels.len() == N_CHANNELS,
        0 <= p.last_channel_provisioned,
        forall|c: int| 0 <= c < N_CHANNELS ==> {
            &&& (#[trigger] p.channels[c]).luns.len() == LUNS_PER_CHANNEL
            &&& p.channels[c].channel_id == c
        },
        p.lists_empty(),
    ensures
        p.ready(),
        p.fresh_for(Set::empty()),
{
    assert forall|c: int| 0 <= c < N_CHANNELS implies (#[trigger] p.channels[c]).ready() && p.channels[c].fresh_for(
        Set::empty(),
    ) by {
        let ch = p.channels[c];
        assert(ch.lists_empty());
        assert forall|l: int| 0 <= l < LUNS_PER_CHANNEL implies (#[trigger] ch.luns[l]).shaped() && ch.luns[l].distinct()
            && ch.luns[l].fresh_for(lun_pages(Set::empty(), ch.channel_id, l)) by {
            assert(ch.luns[l].free.len() == 0);
        }
    }
}

/// A page is handed out at most once: of two page requests in a row on a ready
/// provisioner, each granting a page, the second grants a page other than the first,
/// and neither is among the pages `issued` before.
pub proof fn lemma_two_page_requests_differ(p: CheckedProvisionerModel, issued: Set<PhysicalPageAddress>)
    requires
        p.ready(),
        p.fresh_for(issued),
    ensures
        ({
            let (p1, first) = p.page_request();
            let (p2, second) = p1.page_request();
            match (first, second) {
                (Some(a), Some(b)) => a != b && !issued.contains(a) && !issued.contains(b),
                _ => true,
            }
        }),
{
    lemma_page_request_fresh(p, issued);
    let (p1, first) = p.page_request();
    if let Some(a) = first {
        lemma_page_request_fresh(p1, issued.insert(a));
    } else {
        lemma_page_request_fresh(p1, issued);
    }
}

} // verus!
