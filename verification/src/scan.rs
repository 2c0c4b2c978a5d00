//! The scanning state machine: frontier management, dedup by id, grandchild
//! filtering and the exhaustion heuristic.
//!
//! The caller drives the loop: it asks which id to process next, fetches and
//! classifies that node outside the library, and hands the observation back.
//! Every decision — what to process, what to skip, what to record, when to
//! stop — is made here.

use vstd::prelude::*;

use crate::block::{spec_payload_view, Payload};
use crate::raw::{
    contains_id, ids_view, lemma_raw_insert_contents, raw_insert, sorted_unique, vec_contains_id,
    wf_raw, RawIndex, RawNode, SpecRawNode,
};
use crate::BlockId;

verus! {

/// What became of one handed-back observation.
#[derive(Debug, Clone, Copy, PartialEq, Eq, Structural)]
pub enum ObserveOutcome {
    /// The id had been processed before; the observation was discarded.
    Skipped,
    /// A fresh id with a recognized payload: a raw node was recorded.
    Recorded,
    /// A fresh id the classifier did not recognize: no payload recorded,
    /// but its children still enter the frontier.
    Unrecognized,
}

/// Insert `x` into an ascending id vector, discarding a duplicate.
fn sorted_insert(v: &mut Vec<BlockId>, x: BlockId)
    requires
        sorted_unique(ids_view(old(v)@)),
    ensures
        sorted_unique(ids_view(final(v)@)),
        forall|y: int| #[trigger]
            ids_view(final(v)@).contains(y) == (ids_view(old(v)@).contains(y) || y == x as int),
{
    let ghost s = ids_view(v@);
    let mut i: usize = v.len();
    while i > 0 && v[i - 1] >= x
        invariant
            0 <= i <= v@.len(),
            s == ids_view(v@),
            s.len() == v@.len(),
            sorted_unique(s),
            forall|j: int| i <= j < s.len() ==> s[j] > x as int,
        decreases i,
    {
        if v[i - 1] == x {
            proof {
                assert(s[(i - 1) as int] == x as int);
                assert(ids_view(v@).contains(x as int));
            }
            return ;
        }
        proof {
            assert(s[(i - 1) as int] > x as int);
        }
        i = i - 1;
    }
    proof {
        if i > 0 {
            assert(s[(i - 1) as int] < x as int);
        }
    }
    v.insert(i, x);
    proof {
        let t = ids_view(v@);
        assert(t =~= s.take(i as int) + seq![x as int] + s.skip(i as int));
        assert forall|a: int, b: int| 0 <= a < b < t.len() implies t[a] < t[b] by {
            if a < i && b < i {
                assert(t[a] == s[a] && t[b] == s[b]);
            } else if a < i && b == i {
                assert(t[a] == s[a] && t[b] == x as int);
                assert(s[a] <= s[(i - 1) as int]);
            } else if a < i && b > i {
                assert(t[a] == s[a] && t[b] == s[b - 1]);
                assert(s[a] <= s[(i - 1) as int]);
                assert(s[b - 1] > x as int);
            } else if a == i {
                assert(t[a] == x as int && t[b] == s[b - 1]);
            } else {
                assert(t[a] == s[a - 1] && t[b] == s[b - 1]);
            }
        }
        assert forall|y: int| #[trigger]
            t.contains(y) == (s.contains(y) || y == x as int) by {
            if t.contains(y) {
                let w = choose|w: int| 0 <= w < t.len() && t[w] == y;
                if w < i {
                    assert(s[w] == y);
                } else if w == i {
                } else {
                    assert(s[w - 1] == y);
                }
            }
            if s.contains(y) {
                let w = choose|w: int| 0 <= w < s.len() && s[w] == y;
                if w < i {
                    assert(t[w] == y);
                } else {
                    assert(t[w + 1] == y);
                }
            }
            if y == x as int {
                assert(t[i as int] == y);
            }
        }
    }
}

/// The direct-child list of a node, with every id that also occurs among
/// the node's grandchildren taken out: such an id belongs to its immediate
/// parent, not to this node.
pub open spec fn spec_filter_children(children: Seq<int>, grand: Seq<int>) -> Seq<int>
    decreases children.len(),
{
    if children.len() == 0 {
        Seq::empty()
    } else {
        let pre = spec_filter_children(children.drop_last(), grand);
        if grand.contains(children.last()) {
            pre
        } else {
            pre.push(children.last())
        }
    }
}

/// An id kept by the filter is exactly one that is a child and not a
/// grandchild, and kept ids keep their relative order.
pub proof fn lemma_filter_children_excludes(children: Seq<int>, grand: Seq<int>)
    ensures
        forall|y: int| #[trigger]
            spec_filter_children(children, grand).contains(y) == (children.contains(y)
                && !grand.contains(y)),
    decreases children.len(),
{
    if children.len() == 0 {
        assert forall|y: int| #[trigger]
            spec_filter_children(children, grand).contains(y) == (children.contains(y)
                && !grand.contains(y)) by {
            if children.contains(y) {
                let w = choose|w: int| 0 <= w < children.len() && children[w] == y;
            }
            if spec_filter_children(children, grand).contains(y) {
                let w = choose|w: int|
                    0 <= w < spec_filter_children(children, grand).len()
                        && spec_filter_children(children, grand)[w] == y;
            }
        }
    } else {
        let d = children.drop_last();
        let t = children.last();
        lemma_filter_children_excludes(d, grand);
        let pre = spec_filter_children(d, grand);
        let r = spec_filter_children(children, grand);
        assert forall|y: int| #[trigger]
            r.contains(y) == (children.contains(y) && !grand.contains(y)) by {
            if r.contains(y) {
                if grand.contains(t) {
                    assert(pre.contains(y));
                    let w = choose|w: int| 0 <= w < d.len() && d[w] == y;
                    assert(children[w] == y);
                } else {
                    let w = choose|w: int| 0 <= w < r.len() && r[w] == y;
                    if w < pre.len() {
                        assert(pre.contains(y));
                        let v = choose|v: int| 0 <= v < d.len() && d[v] == y;
                        assert(children[v] == y);
                    } else {
                        assert(y == t);
                        assert(children[children.len() - 1] == y);
                    }
                }
            }
            if children.contains(y) && !grand.contains(y) {
                let w = choose|w: int| 0 <= w < children.len() && children[w] == y;
                if w < children.len() - 1 {
                    assert(d[w] == y);
                    assert(pre.contains(y));
                    let v = choose|v: int| 0 <= v < pre.len() && pre[v] == y;
                    if grand.contains(t) {
                    } else {
                        assert(r[v] == y);
                    }
                } else {
                    assert(y == t);
                    assert(r[r.len() - 1] == y);
                }
            }
        }
    }
}

/// Drop from `children` every id that also occurs in `grandchildren`.
pub fn filter_direct_children(children: &Vec<BlockId>, grandchildren: &Vec<BlockId>) -> (r: Vec<
    BlockId,
>)
    ensures
        ids_view(r@) == spec_filter_children(ids_view(children@), ids_view(grandchildren@)),
{
    let ghost cs = ids_view(children@);
    let ghost gs = ids_view(grandchildren@);
    let mut r: Vec<BlockId> = Vec::new();
    let mut i: usize = 0;
    proof {
        assert(ids_view(r@) =~= spec_filter_children(cs.take(0), gs));
    }
    while i < children.len()
        invariant
            cs == ids_view(children@),
            gs == ids_view(grandchildren@),
            cs.len() == children@.len(),
            0 <= i <= cs.len(),
            ids_view(r@) == spec_filter_children(cs.take(i as int), gs),
        decreases cs.len() - i,
    {
        let keep = !vec_contains_id(grandchildren, children[i]);
        proof {
            assert(cs.take(i + 1).drop_last() =~= cs.take(i as int));
            assert(cs.take(i + 1).last() == cs[i as int]);
            assert(cs[i as int] == children@[i as int] as int);
        }
        if keep {
            r.push(children[i]);
            proof {
                assert(ids_view(r@) =~= spec_filter_children(cs.take(i as int), gs).push(
                    cs[i as int],
                ));
            }
        }
        i = i + 1;
    }
    proof {
        assert(cs.take(cs.len() as int) =~= cs);
    }
    r
}

/// The scanning state: the frontier of discovered but unprocessed ids, the
/// set of processed ids, the raw nodes recorded so far, and the counters
/// behind the exhaustion heuristic.
pub struct ScanState {
    frontier: Vec<BlockId>,
    seen: Vec<BlockId>,
    index: RawIndex,
    skips_this_pass: usize,
    pass_initial_len: usize,
    all_skip_passes: u32,
    max_all_skip_passes: u32,
}

impl ScanState {
    /// The ids discovered but not yet processed, ascending.
    pub closed spec fn frontier_ids(&self) -> Seq<int> {
        ids_view(self.frontier@)
    }

    /// The ids processed so far, ascending.
    pub closed spec fn seen_ids(&self) -> Seq<int> {
        ids_view(self.seen@)
    }

    /// The raw nodes recorded so far, ascending by id.
    pub closed spec fn recorded(&self) -> Seq<SpecRawNode> {
        self.index@
    }

    /// How many already-seen ids this pass has surfaced.
    pub closed spec fn skips(&self) -> int {
        self.skips_this_pass as int
    }

    /// How large the frontier was when this pass began.
    pub closed spec fn pass_len(&self) -> int {
        self.pass_initial_len as int
    }

    /// How many consecutive passes skipped every entry.
    pub closed spec fn skip_passes(&self) -> int {
        self.all_skip_passes as int
    }

    /// The tunable number of all-skip passes tolerated before the scan is
    /// declared exhausted.
    pub closed spec fn skip_limit(&self) -> int {
        self.max_all_skip_passes as int
    }

    /// The state invariant: frontier and seen set are ascending id sets,
    /// the recorded index is well formed, and only processed ids are
    /// recorded.
    pub closed spec fn inv(&self) -> bool {
        &&& sorted_unique(self.frontier_ids())
        &&& sorted_unique(self.seen_ids())
        &&& wf_raw(self.index@)
        &&& forall|y: int| contains_id(self.index@, y) ==> self.seen_ids().contains(y)
    }

    /// A fresh scan that tolerates `max_all_skip_passes` consecutive
    /// all-skip passes before declaring the source exhausted.
    pub fn new(max_all_skip_passes: u32) -> (r: ScanState)
        ensures
            r.inv(),
            r.frontier_ids() == Seq::<int>::empty(),
            r.seen_ids() == Seq::<int>::empty(),
            r.recorded() == Seq::<SpecRawNode>::empty(),
            r.skips() == 0,
            r.pass_len() == 0,
            r.skip_passes() == 0,
            r.skip_limit() == max_all_skip_passes as int,
    {
        let r = ScanState {
            frontier: Vec::new(),
            seen: Vec::new(),
            index: RawIndex::new(),
            skips_this_pass: 0,
            pass_initial_len: 0,
            all_skip_passes: 0,
            max_all_skip_passes,
        };
        proof {
            assert(r.frontier_ids() =~= Seq::<int>::empty());
            assert(r.seen_ids() =~= Seq::<int>::empty());
        }
        r
    }

    /// Merge newly visible ids into the frontier. With `min_exclusive`
    /// set, only ids strictly above it are admitted (re-surfaced earlier
    /// nodes are left alone mid-pass); without it every id is admitted.
    pub fn merge_discovered(&mut self, ids: &Vec<BlockId>, min_exclusive: Option<BlockId>)
        requires
            old(self).inv(),
        ensures
            final(self).inv(),
            final(self).seen_ids() == old(self).seen_ids(),
            final(self).recorded() == old(self).recorded(),
            final(self).skips() == old(self).skips(),
            final(self).pass_len() == old(self).pass_len(),
            final(self).skip_passes() == old(self).skip_passes(),
            final(self).skip_limit() == old(self).skip_limit(),
            forall|y: int| #[trigger]
                final(self).frontier_ids().contains(y) == (old(self).frontier_ids().contains(y)
                    || (ids_view(ids@).contains(y) && (match min_exclusive {
                    Some(c) => y > c as int,
                    None => true,
                }))),
    {
        let ghost s0 = self.frontier_ids();
        let mut i: usize = 0;
        while i < ids.len()
            invariant
                0 <= i <= ids@.len(),
                sorted_unique(self.frontier_ids()),
                self.seen == old(self).seen,
                self.index == old(self).index,
                self.skips_this_pass == old(self).skips_this_pass,
                self.pass_initial_len == old(self).pass_initial_len,
                self.all_skip_passes == old(self).all_skip_passes,
                self.max_all_skip_passes == old(self).max_all_skip_passes,
                forall|y: int| #[trigger]
                    self.frontier_ids().contains(y) == (s0.contains(y) || (exists|m: int|
                        0 <= m < i && ids@[m] as int == y && (match min_exclusive {
                            Some(c) => y > c as int,
                            None => true,
                        }))),
            decreases ids@.len() - i,
        {
            let x = ids[i];
            let admitted = match min_exclusive {
                Some(c) => x > c,
                None => true,
            };
            if admitted {
                sorted_insert(&mut self.frontier, x);
            }
            proof {
                assert forall|y: int| #[trigger]
                    self.frontier_ids().contains(y) == (s0.contains(y) || (exists|m: int|
                        0 <= m < i + 1 && ids@[m] as int == y && (match min_exclusive {
                            Some(c) => y > c as int,
                            None => true,
                        }))) by {
                    if y == x as int && admitted {
                        assert(ids@[i as int] as int == y);
                    }
                    if exists|m: int|
                        0 <= m < i + 1 && ids@[m] as int == y && (match min_exclusive {
                            Some(c) => y > c as int,
                            None => true,
                        }) {
                        let m = choose|m: int|
                            0 <= m < i + 1 && ids@[m] as int == y && (match min_exclusive {
                                Some(c) => y > c as int,
                                None => true,
                            });
                        if m == i {
                            assert(y == x as int);
                        }
                    }
                }
            }
            i = i + 1;
        }
        proof {
            assert forall|y: int| #[trigger]
                self.frontier_ids().contains(y) == (s0.contains(y) || (ids_view(ids@).contains(y)
                    && (match min_exclusive {
                    Some(c) => y > c as int,
                    None => true,
                }))) by {
                if ids_view(ids@).contains(y) {
                    let m = choose|m: int|
                        0 <= m < ids_view(ids@).len() && ids_view(ids@)[m] == y;
                    assert(ids@[m] as int == y);
                }
                if exists|m: int|
                    0 <= m < ids@.len() && ids@[m] as int == y && (match min_exclusive {
                        Some(c) => y > c as int,
                        None => true,
                    }) {
                    let m = choose|m: int|
                        0 <= m < ids@.len() && ids@[m] as int == y && (match min_exclusive {
                            Some(c) => y > c as int,
                            None => true,
                        });
                    assert(ids_view(ids@)[m] == y);
                }
            }
        }
    }

    /// Whether any id is waiting to be processed.
    pub fn frontier_is_empty(&self) -> (r: bool)
        ensures
            r == (self.frontier_ids().len() == 0),
    {
        self.frontier.len() == 0
    }

    /// Take the smallest waiting id out of the frontier; the caller
    /// fetches and classifies that node next.
    pub fn pop_next(&mut self) -> (r: Option<BlockId>)
        requires
            old(self).inv(),
        ensures
            final(self).inv(),
            final(self).seen_ids() == old(self).seen_ids(),
            final(self).recorded() == old(self).recorded(),
            final(self).skips() == old(self).skips(),
            final(self).pass_len() == old(self).pass_len(),
            final(self).skip_passes() == old(self).skip_passes(),
            final(self).skip_limit() == old(self).skip_limit(),
            old(self).frontier_ids().len() == 0 ==> r is None && final(self).frontier_ids() == old(
                self,
            ).frontier_ids(),
            old(self).frontier_ids().len() > 0 ==> {
                &&& r is Some
                &&& r.unwrap() as int == old(self).frontier_ids()[0]
                &&& forall|m: int|
                    0 <= m < old(self).frontier_ids().len() ==> r.unwrap() as int <= old(
                        self,
                    ).frontier_ids()[m]
                &&& final(self).frontier_ids() == old(self).frontier_ids().skip(1)
            },
    {
        if self.frontier.len() == 0 {
            return None;
        }
        let x = self.frontier.remove(0);
        proof {
            let s0 = ids_view(old(self).frontier@);
            assert(ids_view(self.frontier@) =~= s0.skip(1));
            assert(x as int == s0[0]);
            assert forall|m: int| 0 <= m < s0.len() implies x as int <= s0[m] by {
                if m > 0 {
                    assert(s0[0] < s0[m]);
                }
            }
        }
        Some(x)
    }

    /// Hand back the observation of one popped id. A re-surfaced id is
    /// skipped and counted; a fresh id is marked seen, its filtered
    /// direct-child list recorded with its payload (when recognized), and
    /// its children and grandchildren join the frontier.
    pub fn observe(
        &mut self,
        id: BlockId,
        payload: Option<Payload>,
        children: &Vec<BlockId>,
        grandchildren: &Vec<BlockId>,
    ) -> (r: ObserveOutcome)
        requires
            old(self).inv(),
        ensures
            final(self).inv(),
            final(self).pass_len() == old(self).pass_len(),
            final(self).skip_passes() == old(self).skip_passes(),
            final(self).skip_limit() == old(self).skip_limit(),
            old(self).seen_ids().contains(id as int) ==> {
                &&& r == ObserveOutcome::Skipped
                &&& final(self).seen_ids() == old(self).seen_ids()
                &&& final(self).frontier_ids() == old(self).frontier_ids()
                &&& final(self).recorded() == old(self).recorded()
                &&& final(self).skips() == (if old(self).skips() < usize::MAX as int {
                    old(self).skips() + 1
                } else {
                    old(self).skips()
                })
            },
            !old(self).seen_ids().contains(id as int) ==> {
                &&& r == (match payload {
                    Some(_) => ObserveOutcome::Recorded,
                    None => ObserveOutcome::Unrecognized,
                })
                &&& final(self).skips() == old(self).skips()
                &&& forall|y: int| #[trigger]
                    final(self).seen_ids().contains(y) == (old(self).seen_ids().contains(y) || y
                        == id as int)
                &&& forall|y: int| #[trigger]
                    final(self).frontier_ids().contains(y) == (old(self).frontier_ids().contains(y)
                        || ids_view(children@).contains(y) || ids_view(grandchildren@).contains(y))
                &&& final(self).recorded() == (match payload {
                    Some(p) => raw_insert(
                        old(self).recorded(),
                        SpecRawNode {
                            id: id as int,
                            payload: spec_payload_view(p),
                            children: spec_filter_children(
                                ids_view(children@),
                                ids_view(grandchildren@),
                            ),
                        },
                    ),
                    None => old(self).recorded(),
                })
            },
    {
        if vec_contains_id(&self.seen, id) {
            if self.skips_this_pass < usize::MAX {
                self.skips_this_pass = self.skips_this_pass + 1;
            }
            return ObserveOutcome::Skipped;
        }
        sorted_insert(&mut self.seen, id);
        let ghost mid = *self;
        self.merge_discovered(children, None);
        let ghost mid2 = *self;
        self.merge_discovered(grandchildren, None);
        proof {
            assert forall|y: int| #[trigger]
                self.frontier_ids().contains(y) == (old(self).frontier_ids().contains(y)
                    || ids_view(children@).contains(y) || ids_view(grandchildren@).contains(
                    y,
                )) by {
                assert(mid2.frontier_ids().contains(y) == (mid.frontier_ids().contains(y)
                    || ids_view(children@).contains(y)));
            }
        }
        match payload {
            Some(p) => {
                let filtered = filter_direct_children(children, grandchildren);
                let node = RawNode { id, payload: p, direct_child_ids: filtered };
                let ghost s_index = self.index@;
                self.index.insert(node);
                proof {
                    lemma_raw_insert_contents(s_index, node@);
                    assert forall|y: int|
                        contains_id(self.index@, y) implies self.seen_ids().contains(y) by {
                        if y != id as int {
                            assert(contains_id(s_index, y));
                        }
                    }
                }
                ObserveOutcome::Recorded
            },
            None => ObserveOutcome::Unrecognized,
        }
    }

    /// Begin a pass over the frontier: reset the skip count and remember
    /// the frontier's size.
    pub fn begin_pass(&mut self)
        requires
            old(self).inv(),
        ensures
            final(self).inv(),
            final(self).frontier_ids() == old(self).frontier_ids(),
            final(self).seen_ids() == old(self).seen_ids(),
            final(self).recorded() == old(self).recorded(),
            final(self).skip_passes() == old(self).skip_passes(),
            final(self).skip_limit() == old(self).skip_limit(),
            final(self).skips() == 0,
            final(self).pass_len() == old(self).frontier_ids().len(),
    {
        self.skips_this_pass = 0;
        self.pass_initial_len = self.frontier.len();
    }

    /// End a pass: a pass that skipped every entry it started with counts
    /// toward exhaustion, any other pass resets the count. Returns whether
    /// the scan should stop because the tolerated number of consecutive
    /// all-skip passes has been exceeded.
    pub fn end_pass(&mut self) -> (stop: bool)
        requires
            old(self).inv(),
        ensures
            final(self).inv(),
            final(self).frontier_ids() == old(self).frontier_ids(),
            final(self).seen_ids() == old(self).seen_ids(),
            final(self).recorded() == old(self).recorded(),
            final(self).skips() == old(self).skips(),
            final(self).pass_len() == old(self).pass_len(),
            final(self).skip_limit() == old(self).skip_limit(),
            old(self).skips() == old(self).pass_len() ==> final(self).skip_passes() == (if old(
                self,
            ).skip_passes() < u32::MAX as int {
                old(self).skip_passes() + 1
            } else {
                old(self).skip_passes()
            }),
            old(self).skips() != old(self).pass_len() ==> final(self).skip_passes() == 0,
            stop == (final(self).skip_passes() > final(self).skip_limit()),
    {
        if self.skips_this_pass == self.pass_initial_len {
            if self.all_skip_passes < u32::MAX {
                self.all_skip_passes = self.all_skip_passes + 1;
            }
        } else {
            self.all_skip_passes = 0;
        }
        self.all_skip_passes > self.max_all_skip_passes
    }

    /// Surrender the completed raw index.
    pub fn finish(self) -> (r: RawIndex)
        requires
            self.inv(),
        ensures
            r@ == self.recorded(),
            r.wf(),
    {
        self.index
    }
}

} // verus!
