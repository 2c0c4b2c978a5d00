//! Tree reconstruction: turning the flat raw index into an ordered, nested
//! document tree.
//!
//! The algorithm infers a parent for every node from the recorded
//! direct-child lists, folds every parented node into its parent's list
//! item, and finally merges adjacent same-kind lists at the top level.
//! Sibling content always ends up in ascending id order, which is the
//! document's natural reading order.

use vstd::prelude::*;

use crate::block::{
    clone_block, clone_slices, spec_block_view, spec_blocks_view, spec_items_view,
    spec_list_one_view, spec_payload_view, Block, ListOne, OneOf, Payload, SpecBlock, SpecListOne,
    SpecPayload,
};
use crate::raw::{
    contains_id, ids_view, node_at, vec_contains_id, wf_raw, RawIndex, SpecRawNode,
};
use crate::BlockId;

verus! {

/// The finished document: top-level blocks keyed by node id, ascending.
pub type DocumentTree = Vec<(BlockId, Block)>;

/// Mathematical model of a [`DocumentTree`].
pub open spec fn tree_view(t: Seq<(BlockId, Block)>) -> Seq<(int, SpecBlock)> {
    t.map_values(|p: (BlockId, Block)| (p.0 as int, spec_block_view(p.1)))
}

/// A fatal reconciliation fault; each variant carries the offending id.
#[derive(Debug, Clone, Copy, PartialEq, Eq, Structural)]
pub enum ReconcileError {
    /// A list item node whose headline is empty cannot be represented.
    UnresolvableListItem(BlockId),
    /// A node would fold into a parent that was already consumed, which
    /// can only happen when parent records form a cycle or run backwards.
    CyclicParentage(BlockId),
    /// A node that is not a list item was recorded as a structural parent.
    StructuralInvariantViolation(BlockId),
}

// ---------------------------------------------------------------------------
// Parent inference
// ---------------------------------------------------------------------------
/// The parent recorded for `c` by the entries of `s`: the last entry that
/// lists `c` among its direct children wins.
pub open spec fn parent_in(s: Seq<SpecRawNode>, c: int) -> Option<int>
    decreases s.len(),
{
    if s.len() == 0 {
        None
    } else if s.last().children.contains(c) {
        Some(s.last().id)
    } else {
        parent_in(s.drop_last(), c)
    }
}

/// The parent of `c` in the index `s`: an id that no entry carries has no
/// parent, and an entry that no other entry lists as a child is a root.
pub open spec fn parent_of(s: Seq<SpecRawNode>, c: int) -> Option<int> {
    if contains_id(s, c) {
        parent_in(s, c)
    } else {
        None
    }
}

/// The option-of-id view of an optional id.
pub open spec fn opt_id_view(o: Option<BlockId>) -> Option<int> {
    match o {
        Some(id) => Some(id as int),
        None => None,
    }
}

/// Stage A: derive the parent map. Entry `j` of the result is the parent
/// recorded for the node at entry `j` of the index, `None` for a root.
pub fn infer_parents(index: &RawIndex) -> (r: Vec<Option<BlockId>>)
    requires
        index.wf(),
    ensures
        r@.len() == index@.len(),
        forall|j: int|
            0 <= j < index@.len() ==> opt_id_view(r@[j]) == parent_of(index@, index@[j].id),
{
    let ghost s = index@;
    let n = index.len();
    let mut r: Vec<Option<BlockId>> = Vec::new();
    let mut j: usize = 0;
    while j < n
        invariant
            index.wf(),
            s == index@,
            n == s.len(),
            0 <= j <= n,
            r@.len() == j,
            forall|m: int| 0 <= m < j ==> opt_id_view(r@[m]) == parent_of(s, s[m].id),
        decreases n - j,
    {
        let c: BlockId = index.entry(j).id;
        proof {
            assert(c as int == s[j as int].id);
            assert(contains_id(s, c as int)) by {
                assert(s[j as int].id == c as int);
            }
        }
        let mut cur: Option<BlockId> = None;
        let mut i: usize = 0;
        proof {
            assert(s.take(0) =~= Seq::<SpecRawNode>::empty());
        }
        while i < n
            invariant
                index.wf(),
                s == index@,
                n == s.len(),
                0 <= i <= n,
                c as int == s[j as int].id,
                0 <= j < n,
                opt_id_view(cur) == parent_in(s.take(i as int), c as int),
            decreases n - i,
        {
            let node = index.entry(i);
            let listed = vec_contains_id(&node.direct_child_ids, c);
            proof {
                assert(node@ == s[i as int]);
                assert(ids_view(node.direct_child_ids@) == s[i as int].children);
                assert(s.take(i + 1).drop_last() =~= s.take(i as int));
                assert(s.take(i + 1).last() == s[i as int]);
            }
            if listed {
                cur = Some(node.id);
            }
            i = i + 1;
        }
        proof {
            assert(s.take(n as int) =~= s);
        }
        r.push(cur);
        j = j + 1;
    }
    r
}

// ---------------------------------------------------------------------------
// Fatal fault detection
// ---------------------------------------------------------------------------
/// Whether a node is a list item with an empty headline, which the output
/// cannot represent.
pub open spec fn item_unresolvable(n: SpecRawNode) -> bool {
    match n.payload {
        SpecPayload::Item(_, l) => l.headline.len() == 0,
        _ => false,
    }
}

/// The id of the first unrepresentable list item at entry `i` or later.
pub open spec fn first_unresolvable_from(s: Seq<SpecRawNode>, i: int) -> Option<int>
    decreases s.len() - i,
{
    if i < 0 || i >= s.len() {
        None
    } else if item_unresolvable(s[i]) {
        Some(s[i].id)
    } else {
        first_unresolvable_from(s, i + 1)
    }
}

/// Whether the slot of parent `p` is already consumed when the descending
/// fold reaches node `c`: `p` was processed earlier (`p > c`, or `p == c`
/// taken just now) and was itself folded away into its own parent.
pub open spec fn consumed_before(s: Seq<SpecRawNode>, p: int, c: int) -> bool {
    p == c || (p > c && parent_of(s, p) is Some)
}

/// Folding `c` would hit a consumed parent slot: a parentage cycle.
pub open spec fn cyclic_at(s: Seq<SpecRawNode>, c: int) -> bool {
    match parent_of(s, c) {
        Some(p) => consumed_before(s, p, c),
        None => false,
    }
}

/// Folding `c` would hit a live parent that is not a list item.
pub open spec fn structural_at(s: Seq<SpecRawNode>, c: int) -> bool {
    match parent_of(s, c) {
        Some(p) => !consumed_before(s, p, c) && !(node_at(s, p).payload is Item),
        None => false,
    }
}

/// Whether the descending fold faults at node `c`.
pub open spec fn fold_bad(s: Seq<SpecRawNode>, c: int) -> bool {
    cyclic_at(s, c) || structural_at(s, c)
}

/// The id of the first faulting node at entry `i` or earlier, scanning in
/// descending id order exactly as the fold does.
pub open spec fn first_fold_bad_from(s: Seq<SpecRawNode>, i: int) -> Option<int>
    decreases i + 1,
{
    if i < 0 || i >= s.len() {
        None
    } else if fold_bad(s, s[i].id) {
        Some(s[i].id)
    } else {
        first_fold_bad_from(s, i - 1)
    }
}

/// The fatal fault reconciliation reports for `s`, if any: an empty list
/// item headline is found first (lowest id first); otherwise the fold
/// fault hit first in descending id order, a consumed parent slot being
/// checked before the parent's payload.
pub open spec fn spec_fatal(s: Seq<SpecRawNode>) -> Option<ReconcileError> {
    match first_unresolvable_from(s, 0) {
        Some(id) => Some(ReconcileError::UnresolvableListItem(id as i32)),
        None => match first_fold_bad_from(s, s.len() - 1) {
            Some(c) => if cyclic_at(s, c) {
                Some(ReconcileError::CyclicParentage(c as i32))
            } else {
                Some(
                    ReconcileError::StructuralInvariantViolation(
                        parent_of(s, c).unwrap() as i32,
                    ),
                )
            },
            None => None,
        },
    }
}

// ---------------------------------------------------------------------------
// The reconciled tree, as a mathematical function of the index
// ---------------------------------------------------------------------------
/// The largest id in the index (ids ascend, so it is the last entry's).
pub open spec fn max_id(s: Seq<SpecRawNode>) -> int {
    if s.len() == 0 {
        0
    } else {
        s.last().id
    }
}

/// Appending one resolved child entry to a sibling sequence: a terminal
/// block is appended as it is; a list item joins the trailing list when
/// that list has the same kind, and otherwise opens a new list.
pub open spec fn group_step(pre: Seq<SpecBlock>, e: SpecPayload) -> Seq<SpecBlock> {
    match e {
        SpecPayload::Terminal(b) => pre.push(b),
        SpecPayload::Item(k, l) => {
            if pre.len() > 0 && (match pre.last() {
                SpecBlock::List { list_type, .. } => list_type == k,
                _ => false,
            }) {
                match pre.last() {
                    SpecBlock::List { list_type, items } => pre.drop_last().push(
                        SpecBlock::List { list_type, items: items.push(l) },
                    ),
                    _ => pre,  // unreachable under the guard above
                }
            } else {
                pre.push(SpecBlock::List { list_type: k, items: seq![l] })
            }
        },
    }
}

/// Folding a whole sequence of resolved child entries, first to last.
pub open spec fn group_entries(es: Seq<SpecPayload>) -> Seq<SpecBlock>
    decreases es.len(),
{
    if es.len() == 0 {
        Seq::empty()
    } else {
        group_step(group_entries(es.drop_last()), es.last())
    }
}

/// The resolved child entries of parent `n` among the first `i` entries of
/// the index, in ascending id order. Children are guarded to carry larger
/// ids than their parent; reconciliation faults on any other child before
/// this function is relied on, so the guard never bites on a fault-free
/// index.
pub open spec fn entries_upto(s: Seq<SpecRawNode>, n: int, i: int) -> Seq<SpecPayload>
    decreases max_id(s) - n, 0int, i,
{
    if i <= 0 || i > s.len() {
        Seq::empty()
    } else {
        let pre = entries_upto(s, n, i - 1);
        let c = s[i - 1].id;
        if parent_of(s, c) == Some(n) && n < c && c <= max_id(s) {
            pre.push(resolved_entry(s, c))
        } else {
            pre
        }
    }
}

/// The fully resolved content of node `c`: its payload with, for a list
/// item, every child folded in as following content in ascending id order.
pub open spec fn resolved_entry(s: Seq<SpecRawNode>, c: int) -> SpecPayload
    decreases max_id(s) - c, 1int, 0int,
{
    if 0 <= max_id(s) - c {
        match node_at(s, c).payload {
            SpecPayload::Terminal(b) => SpecPayload::Terminal(b),
            SpecPayload::Item(k, l) => SpecPayload::Item(
                k,
                SpecListOne {
                    done: l.done,
                    headline: l.headline,
                    following: group_entries(entries_upto(s, c, s.len() as int)),
                },
            ),
        }
    } else {
        SpecPayload::Terminal(SpecBlock::Text(Seq::empty()))
    }
}

/// The resolved child entries of a root `r` among the first `i` entries of
/// the index, in ascending id order. A root was never folded away, so its
/// children may carry any id.
pub open spec fn root_entries_upto(s: Seq<SpecRawNode>, r: int, i: int) -> Seq<SpecPayload>
    decreases i,
{
    if i <= 0 || i > s.len() {
        Seq::empty()
    } else {
        let pre = root_entries_upto(s, r, i - 1);
        let c = s[i - 1].id;
        if parent_of(s, c) == Some(r) {
            pre.push(resolved_entry(s, c))
        } else {
            pre
        }
    }
}

/// The top-level block a root node `r` contributes: a terminal payload as
/// it is, and a list item payload as a one-item list carrying the root's
/// resolved following content.
pub open spec fn root_block(s: Seq<SpecRawNode>, r: int) -> SpecBlock {
    match node_at(s, r).payload {
        SpecPayload::Terminal(b) => b,
        SpecPayload::Item(k, l) => SpecBlock::List {
            list_type: k,
            items: seq![
                SpecListOne {
                    done: l.done,
                    headline: l.headline,
                    following: group_entries(root_entries_upto(s, r, s.len() as int)),
                },
            ],
        },
    }
}

/// The top-level pairs contributed by the first `i` entries of the index,
/// in ascending id order, before list merging.
pub open spec fn top_pairs_upto(s: Seq<SpecRawNode>, i: int) -> Seq<(int, SpecBlock)>
    decreases i,
{
    if i <= 0 || i > s.len() {
        Seq::empty()
    } else {
        let pre = top_pairs_upto(s, i - 1);
        let r = s[i - 1].id;
        if parent_of(s, r) is None {
            pre.push((r, root_block(s, r)))
        } else {
            pre
        }
    }
}

/// Appending one top-level pair: a list joins an immediately preceding
/// list of the same kind (the later entry's items flow into the earlier,
/// which keeps its id); anything else is appended as it is.
pub open spec fn merge_step(pre: Seq<(int, SpecBlock)>, p: (int, SpecBlock)) -> Seq<
    (int, SpecBlock),
> {
    if pre.len() > 0 && (match (pre.last().1, p.1) {
        (
            SpecBlock::List { list_type: k0, .. },
            SpecBlock::List { list_type: k1, .. },
        ) => k0 == k1,
        _ => false,
    }) {
        match (pre.last().1, p.1) {
            (
                SpecBlock::List { list_type: k0, items: items0 },
                SpecBlock::List { list_type: k1, items: items1 },
            ) => pre.drop_last().push(
                (pre.last().0, SpecBlock::List { list_type: k0, items: items0 + items1 }),
            ),
            _ => pre,  // unreachable under the guard above
        }
    } else {
        pre.push(p)
    }
}

/// Merging every run of adjacent same-kind top-level lists, first to last.
pub open spec fn merge_roots(ps: Seq<(int, SpecBlock)>) -> Seq<(int, SpecBlock)>
    decreases ps.len(),
{
    if ps.len() == 0 {
        Seq::empty()
    } else {
        merge_step(merge_roots(ps.drop_last()), ps.last())
    }
}

/// The document tree a fault-free index reconciles to.
pub open spec fn doc_tree_spec(s: Seq<SpecRawNode>) -> Seq<(int, SpecBlock)> {
    merge_roots(top_pairs_upto(s, s.len() as int))
}

// ---------------------------------------------------------------------------
// Laws
// ---------------------------------------------------------------------------
/// Idempotent reconciliation: the tree is a pure function of the raw
/// index, so any two trees meeting the success contract for equal indexes
/// are equal.
pub proof fn lemma_reconcile_idempotent(
    s: Seq<SpecRawNode>,
    t1: Seq<(int, SpecBlock)>,
    t2: Seq<(int, SpecBlock)>,
)
    requires
        t1 == doc_tree_spec(s),
        t2 == doc_tree_spec(s),
    ensures
        t1 == t2,
{
}

/// The blocks of `bs` that are not lists, in order.
pub open spec fn non_list_blocks(bs: Seq<SpecBlock>) -> Seq<SpecBlock>
    decreases bs.len(),
{
    if bs.len() == 0 {
        Seq::empty()
    } else {
        let pre = non_list_blocks(bs.drop_last());
        match bs.last() {
            SpecBlock::List { .. } => pre,
            _ => pre.push(bs.last()),
        }
    }
}

/// The terminal payload blocks among the children of `n` within the first
/// `i` entries, in ascending id order — the same scan [`entries_upto`]
/// makes.
pub open spec fn terminal_kids_upto(s: Seq<SpecRawNode>, n: int, i: int) -> Seq<SpecBlock>
    decreases i,
{
    if i <= 0 || i > s.len() {
        Seq::empty()
    } else {
        let pre = terminal_kids_upto(s, n, i - 1);
        let c = s[i - 1].id;
        if parent_of(s, c) == Some(n) && n < c && c <= max_id(s) {
            match node_at(s, c).payload {
                SpecPayload::Terminal(b) => pre.push(b),
                _ => pre,
            }
        } else {
            pre
        }
    }
}

/// Whether every terminal payload in the index is itself a non-list block,
/// which is all classification ever produces: lists arise only by folding
/// list items.
pub open spec fn well_classified(s: Seq<SpecRawNode>) -> bool {
    forall|j: int|
        0 <= j < s.len() ==> match #[trigger] s[j].payload {
            SpecPayload::Terminal(b) => !(b is List),
            SpecPayload::Item(_, _) => true,
        }
}

proof fn lemma_order_preservation_upto(s: Seq<SpecRawNode>, n: int, i: int)
    requires
        wf_raw(s),
        well_classified(s),
        0 <= i <= s.len(),
    ensures
        non_list_blocks(group_entries(entries_upto(s, n, i))) == terminal_kids_upto(s, n, i),
    decreases i,
{
    if i <= 0 {
    } else {
        lemma_order_preservation_upto(s, n, i - 1);
        let c = s[i - 1].id;
        let es_pre = entries_upto(s, n, i - 1);
        let g_pre = group_entries(es_pre);
        if parent_of(s, c) == Some(n) && n < c && c <= max_id(s) {
            lemma_node_at_index(s, i - 1);
            let e = resolved_entry(s, c);
            assert(entries_upto(s, n, i) == es_pre.push(e));
            assert(es_pre.push(e).drop_last() =~= es_pre);
            assert(group_entries(entries_upto(s, n, i)) == group_step(g_pre, e));
            match node_at(s, c).payload {
                SpecPayload::Terminal(b) => {
                    assert(e == SpecPayload::Terminal(b));
                    assert(!(b is List));
                    assert(g_pre.push(b).drop_last() =~= g_pre);
                    assert(non_list_blocks(g_pre.push(b)) == non_list_blocks(g_pre).push(b));
                },
                SpecPayload::Item(k, l) => {
                    assert(e is Item);
                    let g = group_step(g_pre, e);
                    if g_pre.len() > 0 && (match g_pre.last() {
                        SpecBlock::List { list_type, .. } => list_type == (e->Item_0),
                        _ => false,
                    }) {
                        match g_pre.last() {
                            SpecBlock::List { list_type, items } => {
                                let updated = SpecBlock::List {
                                    list_type,
                                    items: items.push(e->Item_1),
                                };
                                assert(g == g_pre.drop_last().push(updated));
                                assert(g.drop_last() =~= g_pre.drop_last());
                                assert(non_list_blocks(g) == non_list_blocks(g_pre.drop_last()));
                                assert(non_list_blocks(g_pre) == non_list_blocks(
                                    g_pre.drop_last(),
                                ));
                            },
                            _ => {},
                        }
                    } else {
                        let fresh = SpecBlock::List {
                            list_type: e->Item_0,
                            items: seq![e->Item_1],
                        };
                        assert(g == g_pre.push(fresh));
                        assert(g.drop_last() =~= g_pre);
                        assert(non_list_blocks(g) == non_list_blocks(g_pre));
                    }
                },
            }
        } else {
            assert(entries_upto(s, n, i) == es_pre);
            assert(terminal_kids_upto(s, n, i) == terminal_kids_upto(s, n, i - 1));
        }
    }
}

/// Order preservation: under one parent, the terminal blocks of the
/// resolved following content are exactly the terminal children's payload
/// blocks in ascending id order — sibling order in the output matches
/// ascending node ids.
pub proof fn lemma_order_preservation(s: Seq<SpecRawNode>, n: int)
    requires
        wf_raw(s),
        well_classified(s),
    ensures
        non_list_blocks(group_entries(entries_upto(s, n, s.len() as int))) == terminal_kids_upto(
            s,
            n,
            s.len() as int,
        ),
{
    lemma_order_preservation_upto(s, n, s.len() as int);
}

/// The terminal payload blocks among the children of a root `r` within
/// the first `i` entries, in ascending id order — the same scan
/// [`root_entries_upto`] makes.
pub open spec fn root_terminal_kids_upto(s: Seq<SpecRawNode>, r: int, i: int) -> Seq<SpecBlock>
    decreases i,
{
    if i <= 0 || i > s.len() {
        Seq::empty()
    } else {
        let pre = root_terminal_kids_upto(s, r, i - 1);
        let c = s[i - 1].id;
        if parent_of(s, c) == Some(r) {
            match node_at(s, c).payload {
                SpecPayload::Terminal(b) => pre.push(b),
                _ => pre,
            }
        } else {
            pre
        }
    }
}

proof fn lemma_root_order_preservation_upto(s: Seq<SpecRawNode>, r: int, i: int)
    requires
        wf_raw(s),
        well_classified(s),
        0 <= i <= s.len(),
    ensures
        non_list_blocks(group_entries(root_entries_upto(s, r, i))) == root_terminal_kids_upto(
            s,
            r,
            i,
        ),
    decreases i,
{
    if i <= 0 {
    } else {
        lemma_root_order_preservation_upto(s, r, i - 1);
        let c = s[i - 1].id;
        let es_pre = root_entries_upto(s, r, i - 1);
        let g_pre = group_entries(es_pre);
        if parent_of(s, c) == Some(r) {
            lemma_node_at_index(s, i - 1);
            lemma_max_id(s);
            let e = resolved_entry(s, c);
            assert(root_entries_upto(s, r, i) == es_pre.push(e));
            assert(es_pre.push(e).drop_last() =~= es_pre);
            assert(group_entries(root_entries_upto(s, r, i)) == group_step(g_pre, e));
            match node_at(s, c).payload {
                SpecPayload::Terminal(b) => {
                    assert(e == SpecPayload::Terminal(b));
                    assert(!(b is List));
                    assert(g_pre.push(b).drop_last() =~= g_pre);
                    assert(non_list_blocks(g_pre.push(b)) == non_list_blocks(g_pre).push(b));
                },
                SpecPayload::Item(k, l) => {
                    assert(e is Item);
                    let g = group_step(g_pre, e);
                    if g_pre.len() > 0 && (match g_pre.last() {
                        SpecBlock::List { list_type, .. } => list_type == (e->Item_0),
                        _ => false,
                    }) {
                        match g_pre.last() {
                            SpecBlock::List { list_type, items } => {
                                let updated = SpecBlock::List {
                                    list_type,
                                    items: items.push(e->Item_1),
                                };
                                assert(g == g_pre.drop_last().push(updated));
                                assert(g.drop_last() =~= g_pre.drop_last());
                                assert(non_list_blocks(g) == non_list_blocks(g_pre.drop_last()));
                                assert(non_list_blocks(g_pre) == non_list_blocks(
                                    g_pre.drop_last(),
                                ));
                            },
                            _ => {},
                        }
                    } else {
                        let fresh = SpecBlock::List {
                            list_type: e->Item_0,
                            items: seq![e->Item_1],
                        };
                        assert(g == g_pre.push(fresh));
                        assert(g.drop_last() =~= g_pre);
                        assert(non_list_blocks(g) == non_list_blocks(g_pre));
                    }
                },
            }
        } else {
            assert(root_entries_upto(s, r, i) == es_pre);
        }
    }
}

/// Order preservation at the top: under a root parent too, the terminal
/// blocks of the resolved following content are exactly the terminal
/// children's payload blocks in ascending id order.
pub proof fn lemma_order_preservation_at_root(s: Seq<SpecRawNode>, r: int)
    requires
        wf_raw(s),
        well_classified(s),
    ensures
        non_list_blocks(group_entries(root_entries_upto(s, r, s.len() as int)))
            == root_terminal_kids_upto(s, r, s.len() as int),
{
    lemma_root_order_preservation_upto(s, r, s.len() as int);
}

/// Whether top-level pair ids strictly ascend.
pub open spec fn pairs_ascending(ps: Seq<(int, SpecBlock)>) -> bool {
    forall|i: int, j: int| 0 <= i < j < ps.len() ==> ps[i].0 < ps[j].0
}

proof fn lemma_top_pairs_ascending(s: Seq<SpecRawNode>, i: int)
    requires
        wf_raw(s),
        0 <= i <= s.len(),
    ensures
        pairs_ascending(top_pairs_upto(s, i)),
        forall|m: int|
            0 <= m < top_pairs_upto(s, i).len() ==> exists|w: int|
                0 <= w < i && #[trigger] top_pairs_upto(s, i)[m].0 == s[w].id,
    decreases i,
{
    if i <= 0 {
    } else {
        lemma_top_pairs_ascending(s, i - 1);
        let pre = top_pairs_upto(s, i - 1);
        let ps = top_pairs_upto(s, i);
        if parent_of(s, s[i - 1].id) is None {
            assert(ps == pre.push((s[i - 1].id, root_block(s, s[i - 1].id))));
            assert forall|a: int, b: int| 0 <= a < b < ps.len() implies ps[a].0 < ps[b].0 by {
                if b < pre.len() {
                } else {
                    assert(ps[b].0 == s[i - 1].id);
                    if a < pre.len() {
                        let w = choose|w: int| 0 <= w < i - 1 && pre[a].0 == s[w].id;
                        assert(s[w].id < s[i - 1].id);
                    }
                }
            }
            assert forall|m: int| 0 <= m < ps.len() implies exists|w: int|
                0 <= w < i && #[trigger] ps[m].0 == s[w].id by {
                if m < pre.len() {
                    let w = choose|w: int| 0 <= w < i - 1 && pre[m].0 == s[w].id;
                    assert(ps[m].0 == s[w].id);
                } else {
                    assert(ps[m].0 == s[i - 1].id);
                }
            }
        } else {
            assert(ps == pre);
            assert forall|m: int| 0 <= m < ps.len() implies exists|w: int|
                0 <= w < i && #[trigger] ps[m].0 == s[w].id by {
                let w = choose|w: int| 0 <= w < i - 1 && pre[m].0 == s[w].id;
                assert(ps[m].0 == s[w].id);
            }
        }
    }
}

proof fn lemma_merge_ascending(ps: Seq<(int, SpecBlock)>)
    requires
        pairs_ascending(ps),
    ensures
        pairs_ascending(merge_roots(ps)),
        merge_roots(ps).len() > 0 ==> ps.len() > 0 && merge_roots(ps).last().0 <= ps.last().0,
    decreases ps.len(),
{
    if ps.len() == 0 {
    } else {
        let d = ps.drop_last();
        let p = ps.last();
        lemma_merge_ascending(d);
        let pre = merge_roots(d);
        let r = merge_roots(ps);
        assert(r == merge_step(pre, p));
        if pre.len() > 0 && (match (pre.last().1, p.1) {
            (SpecBlock::List { list_type: k0, .. }, SpecBlock::List { list_type: k1, .. }) => k0
                == k1,
            _ => false,
        }) {
            assert(d.len() > 0);
            assert(pre.last().0 <= d.last().0);
            assert(r.len() == pre.len());
            assert(r.drop_last() =~= pre.drop_last());
            assert(r.last().0 == pre.last().0);
            assert forall|a: int, b: int| 0 <= a < b < r.len() implies r[a].0 < r[b].0 by {
                assert(pre[a].0 < pre[b].0);
                assert(r[a].0 == pre[a].0);
                assert(r[b].0 == pre[b].0);
            }
        } else {
            assert(r == pre.push(p));
            if pre.len() > 0 {
                assert(d.len() > 0);
                assert(pre.last().0 <= d.last().0);
                assert(d.last() == ps[ps.len() - 2]);
                assert(d.last().0 < p.0);
            }
            assert forall|a: int, b: int| 0 <= a < b < r.len() implies r[a].0 < r[b].0 by {
                if b < pre.len() {
                } else {
                    assert(r[b] == p);
                    if a < pre.len() {
                        assert(pre[a].0 < pre.last().0 || pre[a].0 == pre.last().0);
                    }
                }
            }
        }
    }
}

/// Ascending output: whatever order the raw nodes were observed in, the
/// reconciled tree lists its top-level entries in strictly ascending id
/// order.
pub proof fn lemma_tree_ascending(s: Seq<SpecRawNode>)
    requires
        wf_raw(s),
    ensures
        pairs_ascending(doc_tree_spec(s)),
{
    lemma_top_pairs_ascending(s, s.len() as int);
    lemma_merge_ascending(top_pairs_upto(s, s.len() as int));
}

// ---------------------------------------------------------------------------
// Supporting lemmas
// ---------------------------------------------------------------------------
/// A recorded parent is always the id of some entry.
proof fn lemma_parent_in_contains(s: Seq<SpecRawNode>, c: int)
    requires
        parent_in(s, c) is Some,
    ensures
        contains_id(s, parent_in(s, c).unwrap()),
    decreases s.len(),
{
    if s.len() == 0 {
    } else if s.last().children.contains(c) {
        assert(s[s.len() - 1].id == parent_in(s, c).unwrap());
    } else {
        lemma_parent_in_contains(s.drop_last(), c);
        let p = parent_in(s.drop_last(), c).unwrap();
        let w = choose|w: int| 0 <= w < s.drop_last().len() && s.drop_last()[w].id == p;
        assert(s[w].id == p);
    }
}

/// In a well-formed index, looking an entry's id up yields that entry.
proof fn lemma_node_at_index(s: Seq<SpecRawNode>, j: int)
    requires
        wf_raw(s),
        0 <= j < s.len(),
    ensures
        node_at(s, s[j].id) == s[j],
    decreases s.len(),
{
    if j == s.len() - 1 {
    } else {
        assert(s.last().id != s[j].id);
        lemma_node_at_index(s.drop_last(), j);
        assert(s.drop_last()[j] == s[j]);
    }
}

/// No entry is larger than the largest id.
proof fn lemma_max_id(s: Seq<SpecRawNode>)
    requires
        wf_raw(s),
    ensures
        forall|j: int| 0 <= j < s.len() ==> s[j].id <= max_id(s),
{
    assert forall|j: int| 0 <= j < s.len() implies s[j].id <= max_id(s) by {
        if j < s.len() - 1 {
            assert(s[j].id < s[s.len() - 1].id);
        }
    }
}

/// A clean descending scan means no entry faults.
proof fn lemma_no_fold_bad(s: Seq<SpecRawNode>, i: int)
    requires
        i < s.len(),
        first_fold_bad_from(s, i) is None,
    ensures
        forall|m: int| 0 <= m <= i ==> !fold_bad(s, s[m].id),
    decreases i + 1,
{
    if i >= 0 {
        lemma_no_fold_bad(s, i - 1);
    }
}

// ---------------------------------------------------------------------------
// Fault scans
// ---------------------------------------------------------------------------
/// The entry index of the given id, if the id is recorded.
fn find_entry(index: &RawIndex, id: BlockId) -> (r: Option<usize>)
    requires
        index.wf(),
    ensures
        match r {
            Some(j) => j < index@.len() && index@[j as int].id == id as int,
            None => !contains_id(index@, id as int),
        },
{
    let ghost s = index@;
    let n = index.len();
    let mut j: usize = 0;
    while j < n
        invariant
            s == index@,
            n == s.len(),
            0 <= j <= n,
            forall|m: int| 0 <= m < j ==> s[m].id != id as int,
        decreases n - j,
    {
        if index.entry(j).id == id {
            return Some(j);
        }
        j = j + 1;
    }
    proof {
        if contains_id(s, id as int) {
            let w = choose|w: int| 0 <= w < s.len() && s[w].id == id as int;
        }
    }
    None
}

/// The first (lowest-id) list item whose headline is empty, if any.
fn find_unresolvable(index: &RawIndex) -> (r: Option<BlockId>)
    requires
        index.wf(),
    ensures
        opt_id_view(r) == first_unresolvable_from(index@, 0),
{
    let ghost s = index@;
    let n = index.len();
    let mut j: usize = 0;
    while j < n
        invariant
            s == index@,
            n == s.len(),
            0 <= j <= n,
            first_unresolvable_from(s, 0) == first_unresolvable_from(s, j as int),
        decreases n - j,
    {
        let node = index.entry(j);
        let bad = match &node.payload {
            OneOf::B((_, l)) => l.headline.len() == 0,
            OneOf::A(_) => false,
        };
        proof {
            assert(node@ == s[j as int]);
            assert(bad == item_unresolvable(s[j as int]));
        }
        if bad {
            return Some(node.id);
        }
        j = j + 1;
    }
    None
}

/// The fold fault hit first in descending id order, if any, reported as
/// the error reconciliation raises for it.
fn find_fold_fault(index: &RawIndex, parents: &Vec<Option<BlockId>>) -> (r: Option<ReconcileError>)
    requires
        index.wf(),
        parents@.len() == index@.len(),
        forall|m: int|
            0 <= m < index@.len() ==> opt_id_view(parents@[m]) == parent_of(index@, index@[m].id),
    ensures
        match first_fold_bad_from(index@, index@.len() - 1) {
            Some(c) => r == Some(
                if cyclic_at(index@, c) {
                    ReconcileError::CyclicParentage(c as i32)
                } else {
                    ReconcileError::StructuralInvariantViolation(
                        parent_of(index@, c).unwrap() as i32,
                    )
                },
            ),
            None => r is None,
        },
{
    let ghost s = index@;
    let n = index.len();
    let mut j: usize = n;
    while j > 0
        invariant
            index.wf(),
            s == index@,
            n == s.len(),
            parents@.len() == n,
            forall|m: int| 0 <= m < n ==> opt_id_view(parents@[m]) == parent_of(s, s[m].id),
            0 <= j <= n,
            first_fold_bad_from(s, n - 1) == first_fold_bad_from(s, j - 1),
        decreases j,
    {
        let ghost c_spec = s[j - 1].id;
        let c = index.entry(j - 1).id;
        proof {
            assert(c as int == c_spec);
        }
        if let Some(p) = parents[j - 1] {
            proof {
                assert(parent_of(s, c_spec) == Some(p as int));
                assert(contains_id(s, c_spec)) by {
                    assert(s[j - 1].id == c_spec);
                }
                lemma_parent_in_contains(s, c_spec);
            }
            if p == c {
                proof {
                    assert(cyclic_at(s, c_spec));
                    assert(fold_bad(s, c_spec));
                }
                return Some(ReconcileError::CyclicParentage(c));
            }
            let pj = match find_entry(index, p) {
                Some(pj) => pj,
                None => {
                    proof {
                        assert(false);
                    }
                    0
                },
            };
            let p_has_parent = parents[pj].is_some();
            proof {
                assert(s[pj as int].id == p as int);
                assert(opt_id_view(parents@[pj as int]) == parent_of(s, p as int));
                assert(p_has_parent == (parent_of(s, p as int) is Some));
            }
            if p > c && p_has_parent {
                proof {
                    assert(consumed_before(s, p as int, c_spec));
                    assert(cyclic_at(s, c_spec));
                }
                return Some(ReconcileError::CyclicParentage(c));
            }
            proof {
                assert(!consumed_before(s, p as int, c_spec));
                assert(!cyclic_at(s, c_spec));
            }
            let is_item = match &index.entry(pj).payload {
                OneOf::B(_) => true,
                OneOf::A(_) => false,
            };
            proof {
                lemma_node_at_index(s, pj as int);
                assert(node_at(s, p as int) == s[pj as int]);
                assert(is_item == (node_at(s, p as int).payload is Item));
            }
            if !is_item {
                proof {
                    assert(structural_at(s, c_spec));
                }
                return Some(ReconcileError::StructuralInvariantViolation(p));
            }
            proof {
                assert(!fold_bad(s, c_spec));
            }
        } else {
            proof {
                assert(parent_of(s, c_spec) is None);
                assert(!fold_bad(s, c_spec));
            }
        }
        j = j - 1;
    }
    None
}

// ---------------------------------------------------------------------------
// Building the tree
// ---------------------------------------------------------------------------
/// The facts the build phase carries: the index is well formed, the parent
/// vector matches it, and no entry faults.
pub open spec fn build_ctx(s: Seq<SpecRawNode>, parents: Seq<Option<BlockId>>) -> bool {
    &&& wf_raw(s)
    &&& parents.len() == s.len()
    &&& forall|m: int| 0 <= m < s.len() ==> opt_id_view(parents[m]) == parent_of(s, s[m].id)
    &&& forall|m: int| 0 <= m < s.len() ==> !fold_bad(s, s[m].id)
}

/// Append one resolved entry to a sibling block sequence, merging a list
/// item into a trailing list of the same kind.
fn push_grouped(out: &mut Vec<Block>, e: Payload)
    ensures
        spec_blocks_view(final(out)@) == group_step(
            spec_blocks_view(old(out)@),
            spec_payload_view(e),
        ),
{
    let ghost pre = spec_blocks_view(old(out)@);
    match e {
        OneOf::A(b) => {
            out.push(b);
            proof {
                assert(spec_blocks_view(out@) =~= pre.push(spec_block_view(b)));
            }
        },
        OneOf::B((k, item)) => {
            match out.pop() {
                Some(Block::List { list_type, items }) => {
                    if list_type == k {
                        let mut items2 = items;
                        items2.push(item);
                        out.push(Block::List { list_type, items: items2 });
                        proof {
                            assert(pre.last() == spec_block_view(
                                Block::List { list_type, items },
                            ));
                            assert(spec_items_view(items2@) =~= spec_items_view(items@).push(
                                spec_list_one_view(item),
                            ));
                            assert(spec_blocks_view(out@) =~= pre.drop_last().push(
                                SpecBlock::List {
                                    list_type,
                                    items: spec_items_view(items@).push(spec_list_one_view(item)),
                                },
                            ));
                        }
                    } else {
                        out.push(Block::List { list_type, items });
                        let mut single: Vec<ListOne> = Vec::new();
                        single.push(item);
                        out.push(Block::List { list_type: k, items: single });
                        proof {
                            assert(out@.drop_last() =~= old(out)@);
                            assert(spec_items_view(single@) =~= seq![spec_list_one_view(item)]);
                            assert(spec_blocks_view(out@) =~= pre.push(
                                SpecBlock::List {
                                    list_type: k,
                                    items: seq![spec_list_one_view(item)],
                                },
                            ));
                        }
                    }
                },
                Some(other) => {
                    out.push(other);
                    let mut single: Vec<ListOne> = Vec::new();
                    single.push(item);
                    out.push(Block::List { list_type: k, items: single });
                    proof {
                        assert(out@.drop_last() =~= old(out)@);
                        assert(spec_items_view(single@) =~= seq![spec_list_one_view(item)]);
                        assert(spec_blocks_view(out@) =~= pre.push(
                            SpecBlock::List { list_type: k, items: seq![spec_list_one_view(item)] },
                        ));
                    }
                },
                None => {
                    let mut single: Vec<ListOne> = Vec::new();
                    single.push(item);
                    out.push(Block::List { list_type: k, items: single });
                    proof {
                        assert(spec_items_view(single@) =~= seq![spec_list_one_view(item)]);
                        assert(spec_blocks_view(out@) =~= pre.push(
                            SpecBlock::List { list_type: k, items: seq![spec_list_one_view(item)] },
                        ));
                    }
                },
            }
        },
    }
}

/// Stage B, one node: the fully resolved content of the non-root node at
/// entry `j`, its children folded in as following content in ascending id
/// order.
fn build_entry(index: &RawIndex, parents: &Vec<Option<BlockId>>, j: usize) -> (r: Payload)
    requires
        build_ctx(index@, parents@),
        j < index@.len(),
        parent_of(index@, index@[j as int].id) is Some,
    ensures
        spec_payload_view(r) == resolved_entry(index@, index@[j as int].id),
    decreases max_id(index@) - index@[j as int].id, 1int, 0int,
{
    let ghost s = index@;
    let ghost c = s[j as int].id;
    proof {
        lemma_max_id(s);
        lemma_node_at_index(s, j as int);
    }
    let node = index.entry(j);
    match &node.payload {
        OneOf::A(b) => {
            let r = OneOf::A(clone_block(b));
            proof {
                assert(node_at(s, c).payload == spec_payload_view(node.payload));
            }
            r
        },
        OneOf::B((t, l)) => {
            let following = build_following(index, parents, j);
            let item = ListOne { done: l.done, headline: clone_slices(&l.headline), following };
            proof {
                assert(node_at(s, c).payload == spec_payload_view(node.payload));
            }
            OneOf::B((*t, item))
        },
    }
}

/// Stage B, one node's children: the following content of the non-root
/// node at entry `j`, grouped in ascending id order.
fn build_following(index: &RawIndex, parents: &Vec<Option<BlockId>>, j: usize) -> (r: Vec<Block>)
    requires
        build_ctx(index@, parents@),
        j < index@.len(),
        parent_of(index@, index@[j as int].id) is Some,
    ensures
        spec_blocks_view(r@) == group_entries(
            entries_upto(index@, index@[j as int].id, index@.len() as int),
        ),
    decreases max_id(index@) - index@[j as int].id, 0int, 0int,
{
    let ghost s = index@;
    let ghost n_spec = s[j as int].id;
    let n_id = index.entry(j).id;
    proof {
        assert(n_id as int == n_spec);
        lemma_max_id(s);
    }
    let n = index.len();
    let mut out: Vec<Block> = Vec::new();
    let mut i: usize = 0;
    proof {
        assert(spec_blocks_view(out@) =~= Seq::<SpecBlock>::empty());
    }
    while i < n
        invariant
            build_ctx(s, parents@),
            s == index@,
            n == s.len(),
            parents@.len() == n,
            0 <= i <= n,
            0 <= j < n,
            n_id as int == n_spec,
            n_spec == s[j as int].id,
            parent_of(s, n_spec) is Some,
            forall|m: int| 0 <= m < s.len() ==> s[m].id <= max_id(s),
            spec_blocks_view(out@) == group_entries(entries_upto(s, n_spec, i as int)),
        decreases n - i,
    {
        let ghost c = s[i as int].id;
        let is_kid = match parents[i] {
            Some(p) => p == n_id,
            None => false,
        };
        proof {
            assert(opt_id_view(parents@[i as int]) == parent_of(s, c));
            assert(is_kid == (parent_of(s, c) == Some(n_spec)));
        }
        if is_kid {
            proof {
                // the fold is fault-free, so this child's id exceeds its parent's
                assert(!fold_bad(s, c));
                assert(!cyclic_at(s, c));
                assert(!consumed_before(s, n_spec, c));
                assert(n_spec != c);
                assert(!(n_spec > c && parent_of(s, n_spec) is Some));
                assert(n_spec < c);
                assert(c <= max_id(s));
            }
            let e = build_entry(index, parents, i);
            push_grouped(&mut out, e);
            proof {
                assert(entries_upto(s, n_spec, i + 1).drop_last() =~= entries_upto(
                    s,
                    n_spec,
                    i as int,
                ));
                assert(entries_upto(s, n_spec, i + 1) == entries_upto(s, n_spec, i as int).push(
                    resolved_entry(s, c),
                ));
            }
        } else {
            proof {
                assert(entries_upto(s, n_spec, i + 1) == entries_upto(s, n_spec, i as int));
            }
        }
        i = i + 1;
    }
    out
}

/// The top-level block contributed by the root node at entry `j`.
fn build_root(index: &RawIndex, parents: &Vec<Option<BlockId>>, j: usize) -> (r: Block)
    requires
        build_ctx(index@, parents@),
        j < index@.len(),
        parent_of(index@, index@[j as int].id) is None,
    ensures
        spec_block_view(r) == root_block(index@, index@[j as int].id),
{
    let ghost s = index@;
    let ghost r_spec = s[j as int].id;
    proof {
        lemma_node_at_index(s, j as int);
    }
    let node = index.entry(j);
    match &node.payload {
        OneOf::A(b) => {
            let r = clone_block(b);
            proof {
                assert(node_at(s, r_spec).payload == spec_payload_view(node.payload));
            }
            r
        },
        OneOf::B((t, l)) => {
            let r_id = node.id;
            proof {
                assert(r_id as int == r_spec);
            }
            let n = index.len();
            let mut out: Vec<Block> = Vec::new();
            let mut i: usize = 0;
            proof {
                assert(spec_blocks_view(out@) =~= Seq::<SpecBlock>::empty());
            }
            while i < n
                invariant
                    build_ctx(s, parents@),
                    s == index@,
                    n == s.len(),
                    parents@.len() == n,
                    0 <= i <= n,
                    0 <= j < n,
                    r_id as int == r_spec,
                    r_spec == s[j as int].id,
                    spec_blocks_view(out@) == group_entries(root_entries_upto(s, r_spec, i as int)),
                decreases n - i,
            {
                let ghost c = s[i as int].id;
                let is_kid = match parents[i] {
                    Some(p) => p == r_id,
                    None => false,
                };
                proof {
                    assert(opt_id_view(parents@[i as int]) == parent_of(s, c));
                    assert(is_kid == (parent_of(s, c) == Some(r_spec)));
                }
                if is_kid {
                    let e = build_entry(index, parents, i);
                    push_grouped(&mut out, e);
                    proof {
                        assert(root_entries_upto(s, r_spec, i + 1).drop_last()
                            =~= root_entries_upto(s, r_spec, i as int));
                        assert(root_entries_upto(s, r_spec, i + 1) == root_entries_upto(
                            s,
                            r_spec,
                            i as int,
                        ).push(resolved_entry(s, c)));
                    }
                } else {
                    proof {
                        assert(root_entries_upto(s, r_spec, i + 1) == root_entries_upto(
                            s,
                            r_spec,
                            i as int,
                        ));
                    }
                }
                i = i + 1;
            }
            let item = ListOne { done: l.done, headline: clone_slices(&l.headline), following: out };
            let mut items: Vec<ListOne> = Vec::new();
            items.push(item);
            let r = Block::List { list_type: *t, items };
            proof {
                assert(node_at(s, r_spec).payload == spec_payload_view(node.payload));
                assert(spec_items_view(items@) =~= seq![spec_list_one_view(item)]);
            }
            r
        },
    }
}

/// Stage D, one pair: append one top-level pair, merging a list into an
/// immediately preceding list of the same kind.
fn push_merged(out: &mut Vec<(BlockId, Block)>, id: BlockId, b: Block)
    ensures
        tree_view(final(out)@) == merge_step(tree_view(old(out)@), (id as int, spec_block_view(b))),
{
    let ghost pre = tree_view(old(out)@);
    match out.pop() {
        Some((last_id, Block::List { list_type, items })) => {
            match b {
                Block::List { list_type: k, items: new_items } => {
                    if list_type == k {
                        let mut items2 = items;
                        let mut incoming = new_items;
                        items2.append(&mut incoming);
                        out.push((last_id, Block::List { list_type, items: items2 }));
                        proof {
                            assert(pre.last() == (
                                last_id as int,
                                spec_block_view(Block::List { list_type, items }),
                            ));
                            assert(spec_items_view(items2@) =~= spec_items_view(items@)
                                + spec_items_view(new_items@));
                            assert(tree_view(out@) =~= pre.drop_last().push(
                                (
                                    last_id as int,
                                    SpecBlock::List {
                                        list_type,
                                        items: spec_items_view(items@) + spec_items_view(
                                            new_items@,
                                        ),
                                    },
                                ),
                            ));
                        }
                    } else {
                        out.push((last_id, Block::List { list_type, items }));
                        out.push((id, Block::List { list_type: k, items: new_items }));
                        proof {
                            assert(out@.drop_last() =~= old(out)@);
                            assert(tree_view(out@) =~= pre.push(
                                (
                                    id as int,
                                    SpecBlock::List {
                                        list_type: k,
                                        items: spec_items_view(new_items@),
                                    },
                                ),
                            ));
                        }
                    }
                },
                other => {
                    out.push((last_id, Block::List { list_type, items }));
                    out.push((id, other));
                    proof {
                        assert(out@.drop_last() =~= old(out)@);
                        assert(tree_view(out@) =~= pre.push((id as int, spec_block_view(other))));
                    }
                },
            }
        },
        Some((last_id, other_last)) => {
            out.push((last_id, other_last));
            out.push((id, b));
            proof {
                assert(out@.drop_last() =~= old(out)@);
                assert(tree_view(out@) =~= pre.push((id as int, spec_block_view(b))));
            }
        },
        None => {
            out.push((id, b));
            proof {
                assert(tree_view(out@) =~= pre.push((id as int, spec_block_view(b))));
            }
        },
    }
}

/// Reconcile the raw index into the document tree.
///
/// On success the tree holds, in ascending id order, one pair for every
/// root node, every parented node folded into its parent's following
/// content in ascending id order, and adjacent same-kind top-level lists
/// merged into one. On a fault the error identifies the offending node:
/// an empty list item headline is reported first, lowest id first; then
/// the first fold fault in descending id order, a consumed parent slot
/// (cycle) being checked before a parent that is not a list item.
pub fn reconcile(index: &RawIndex) -> (r: Result<DocumentTree, ReconcileError>)
    requires
        index.wf(),
    ensures
        match r {
            Ok(t) => spec_fatal(index@) is None && tree_view(t@) == doc_tree_spec(index@),
            Err(e) => spec_fatal(index@) == Some(e),
        },
{
    let ghost s = index@;
    if let Some(id) = find_unresolvable(index) {
        return Err(ReconcileError::UnresolvableListItem(id));
    }
    let parents = infer_parents(index);
    if let Some(e) = find_fold_fault(index, &parents) {
        return Err(e);
    }
    proof {
        if s.len() > 0 {
            lemma_no_fold_bad(s, s.len() - 1);
        }
    }
    let n = index.len();
    let mut out: Vec<(BlockId, Block)> = Vec::new();
    let mut j: usize = 0;
    proof {
        assert(tree_view(out@) =~= Seq::<(int, SpecBlock)>::empty());
    }
    while j < n
        invariant
            build_ctx(s, parents@),
            s == index@,
            n == s.len(),
            parents@.len() == n,
            0 <= j <= n,
            tree_view(out@) == merge_roots(top_pairs_upto(s, j as int)),
        decreases n - j,
    {
        let ghost r_spec = s[j as int].id;
        let is_root = parents[j].is_none();
        proof {
            assert(opt_id_view(parents@[j as int]) == parent_of(s, r_spec));
            assert(is_root == (parent_of(s, r_spec) is None));
        }
        if is_root {
            let id = index.entry(j).id;
            proof {
                assert(id as int == r_spec);
            }
            let b = build_root(index, &parents, j);
            push_merged(&mut out, id, b);
            proof {
                assert(top_pairs_upto(s, j + 1).drop_last() =~= top_pairs_upto(s, j as int));
                assert(top_pairs_upto(s, j + 1) == top_pairs_upto(s, j as int).push(
                    (r_spec, root_block(s, r_spec)),
                ));
            }
        } else {
            proof {
                assert(top_pairs_upto(s, j + 1) == top_pairs_upto(s, j as int));
            }
        }
        j = j + 1;
    }
    Ok(out)
}

} // verus!
