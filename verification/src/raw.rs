//! The raw index: a deduplicated map from node id to classified payload and
//! direct-child ids, kept in ascending id order. This is what the scanner
//! produces and what reconciliation consumes.

use vstd::prelude::*;

use crate::block::{spec_payload_view, Payload, SpecBlock, SpecPayload};
use crate::BlockId;

verus! {

/// One scanned node: its id, its classified content, and the ids of the
/// nodes directly nested under it (children of children excluded).
pub struct RawNode {
    pub id: BlockId,
    pub payload: Payload,
    pub direct_child_ids: Vec<BlockId>,
}

/// Mathematical model of a [`RawNode`].
pub struct SpecRawNode {
    pub id: int,
    pub payload: SpecPayload,
    pub children: Seq<int>,
}

impl View for RawNode {
    type V = SpecRawNode;

    open spec fn view(&self) -> SpecRawNode {
        SpecRawNode {
            id: self.id as int,
            payload: spec_payload_view(self.payload),
            children: self.direct_child_ids@.map_values(|c: BlockId| c as int),
        }
    }
}

/// The id view of a vector of ids.
pub open spec fn ids_view(v: Seq<BlockId>) -> Seq<int> {
    v.map_values(|c: BlockId| c as int)
}

/// Strictly ascending, so every id occurs at most once.
pub open spec fn sorted_unique(s: Seq<int>) -> bool {
    forall|i: int, j: int| 0 <= i < j < s.len() ==> s[i] < s[j]
}

/// Whether `v` contains `x`.
pub fn vec_contains_id(v: &Vec<BlockId>, x: BlockId) -> (r: bool)
    ensures
        r == ids_view(v@).contains(x as int),
{
    let mut k: usize = 0;
    while k < v.len()
        invariant
            0 <= k <= v@.len(),
            forall|m: int| 0 <= m < k ==> v@[m] != x,
        decreases v@.len() - k,
    {
        if v[k] == x {
            proof {
                assert(ids_view(v@)[k as int] == x as int);
            }
            return true;
        }
        k = k + 1;
    }
    proof {
        if ids_view(v@).contains(x as int) {
            let m = choose|m: int| 0 <= m < ids_view(v@).len() && ids_view(v@)[m] == x as int;
            assert(v@[m] as int == x as int);
            assert(v@[m] == x);
        }
    }
    false
}

/// A placeholder node, returned by [`node_at`] for an id that is absent.
pub open spec fn default_raw_node() -> SpecRawNode {
    SpecRawNode {
        id: 0,
        payload: SpecPayload::Terminal(SpecBlock::Text(Seq::empty())),
        children: Seq::empty(),
    }
}

/// Well-formedness of a raw index: entry ids are strictly ascending, so
/// every id occurs at most once.
pub open spec fn wf_raw(s: Seq<SpecRawNode>) -> bool {
    forall|i: int, j: int| 0 <= i < j < s.len() ==> s[i].id < s[j].id
}

/// Whether some entry of `s` carries `id`.
pub open spec fn contains_id(s: Seq<SpecRawNode>, id: int) -> bool {
    exists|i: int| 0 <= i < s.len() && s[i].id == id
}

/// The entry of `s` carrying `id`; the placeholder node if there is none.
/// With duplicate ids the last entry wins, so on a well-formed index this
/// is the one entry with that id.
pub open spec fn node_at(s: Seq<SpecRawNode>, id: int) -> SpecRawNode
    decreases s.len(),
{
    if s.len() == 0 {
        default_raw_node()
    } else if s.last().id == id {
        s.last()
    } else {
        node_at(s.drop_last(), id)
    }
}

/// Insertion into an id-sorted index. An entry whose id is already present
/// is discarded, not merged: the first observation of an id wins.
pub open spec fn raw_insert(s: Seq<SpecRawNode>, n: SpecRawNode) -> Seq<SpecRawNode>
    decreases s.len(),
{
    if s.len() == 0 {
        seq![n]
    } else if s.last().id < n.id {
        s.push(n)
    } else if s.last().id == n.id {
        s
    } else {
        raw_insert(s.drop_last(), n).push(s.last())
    }
}

/// The completed output of a scan, ready for reconciliation.
pub struct RawIndex {
    entries: Vec<RawNode>,
}

impl View for RawIndex {
    type V = Seq<SpecRawNode>;

    closed spec fn view(&self) -> Seq<SpecRawNode> {
        self.entries@.map_values(|n: RawNode| n@)
    }
}

impl RawIndex {
    /// Whether this index is well-formed (ids strictly ascending).
    pub open spec fn wf(&self) -> bool {
        wf_raw(self@)
    }

    pub fn new() -> (r: RawIndex)
        ensures
            r@ == Seq::<SpecRawNode>::empty(),
            r.wf(),
    {
        let r = RawIndex { entries: Vec::new() };
        proof {
            assert(r@ =~= Seq::<SpecRawNode>::empty());
        }
        r
    }

    pub fn len(&self) -> (n: usize)
        ensures
            n == self@.len(),
    {
        self.entries.len()
    }

    pub fn entry(&self, i: usize) -> (r: &RawNode)
        requires
            i < self@.len(),
        ensures
            r@ == self@[i as int],
    {
        &self.entries[i]
    }

    /// Record one scanned node. A node whose id was already recorded is
    /// discarded whole; the return value says whether the id was fresh.
    pub fn insert(&mut self, node: RawNode) -> (fresh: bool)
        requires
            old(self).wf(),
        ensures
            final(self)@ == raw_insert(old(self)@, node@),
            fresh == !contains_id(old(self)@, node@.id),
            final(self).wf(),
    {
        let ghost s = self@;
        let ghost n = node@;
        let mut i: usize = self.entries.len();
        while i > 0 && self.entries[i - 1].id >= node.id
            invariant
                0 <= i <= s.len(),
                self@ == s,
                self.entries@.len() == s.len(),
                wf_raw(s),
                n == node@,
                forall|j: int| i <= j < s.len() ==> s[j].id > n.id,
            decreases i,
        {
            if self.entries[i - 1].id == node.id {
                proof {
                    assert(s[(i - 1) as int].id == n.id);
                    lemma_raw_insert_dup(s, n, (i - 1) as int);
                }
                return false;
            }
            i = i - 1;
        }
        proof {
            if i > 0 {
                assert(s[i - 1].id < n.id);
            }
            lemma_raw_insert_at(s, n, i as int);
            assert(!contains_id(s, n.id)) by {
                assert forall|j: int| 0 <= j < s.len() implies s[j].id != n.id by {
                    if j < i {
                        assert(s[j].id <= s[i - 1].id);
                    }
                }
            }
        }
        self.entries.insert(i, node);
        proof {
            assert(self@ =~= s.take(i as int) + seq![n] + s.skip(i as int));
            lemma_raw_insert_wf(s, n);
        }
        true
    }
}

/// Inserting an id that is present leaves a well-formed index unchanged.
proof fn lemma_raw_insert_dup(s: Seq<SpecRawNode>, n: SpecRawNode, k: int)
    requires
        wf_raw(s),
        0 <= k < s.len(),
        s[k].id == n.id,
    ensures
        raw_insert(s, n) == s,
        contains_id(s, n.id),
    decreases s.len(),
{
    if s.last().id < n.id {
        assert(s[k].id <= s.last().id);
        assert(false);
    } else if s.last().id == n.id {
    } else {
        assert(k < s.len() - 1);
        lemma_raw_insert_dup(s.drop_last(), n, k);
        assert(raw_insert(s, n) =~= s);
    }
}

/// Where the new id is absent, insertion splices the node in at the point
/// `i` that separates smaller ids from larger ones.
proof fn lemma_raw_insert_at(s: Seq<SpecRawNode>, n: SpecRawNode, i: int)
    requires
        wf_raw(s),
        0 <= i <= s.len(),
        forall|j: int| i <= j < s.len() ==> s[j].id > n.id,
        i > 0 ==> s[i - 1].id < n.id,
    ensures
        raw_insert(s, n) == s.take(i) + seq![n] + s.skip(i),
    decreases s.len(),
{
    if s.len() == 0 {
        assert(raw_insert(s, n) =~= s.take(i) + seq![n] + s.skip(i));
    } else if i == s.len() {
        assert(s.last().id < n.id);
        assert(raw_insert(s, n) =~= s.take(i) + seq![n] + s.skip(i));
    } else {
        assert(s.last().id > n.id);
        lemma_raw_insert_at(s.drop_last(), n, i);
        assert(raw_insert(s, n) =~= s.take(i) + seq![n] + s.skip(i));
    }
}

/// Insertion keeps the index well-formed.
pub proof fn lemma_raw_insert_wf(s: Seq<SpecRawNode>, n: SpecRawNode)
    requires
        wf_raw(s),
    ensures
        wf_raw(raw_insert(s, n)),
    decreases s.len(),
{
    if s.len() == 0 {
    } else if s.last().id < n.id {
    } else if s.last().id == n.id {
    } else {
        lemma_raw_insert_wf(s.drop_last(), n);
        let r = raw_insert(s.drop_last(), n);
        lemma_raw_insert_contents(s.drop_last(), n);
        assert forall|i: int, j: int|
            0 <= i < j < r.push(s.last()).len() implies r.push(s.last())[i].id < r.push(
            s.last(),
        )[j].id by {
            if j < r.len() {
            } else {
                assert(r.push(s.last())[j] == s.last());
            }
        }
    }
}

/// What insertion does to the contents: every old entry keeps its place in
/// the id order, and the new node is present exactly when its id was fresh.
pub proof fn lemma_raw_insert_contents(s: Seq<SpecRawNode>, n: SpecRawNode)
    requires
        wf_raw(s),
    ensures
        forall|id: int| #[trigger]
            contains_id(raw_insert(s, n), id) == (contains_id(s, id) || id == n.id),
        forall|id: int|
            contains_id(s, id) && id != n.id ==> #[trigger] node_at(raw_insert(s, n), id)
                == node_at(s, id),
        !contains_id(s, n.id) ==> node_at(raw_insert(s, n), n.id) == n,
        contains_id(s, n.id) ==> raw_insert(s, n) == s,
        raw_insert(s, n).len() == s.len() + (if contains_id(s, n.id) {
            0int
        } else {
            1int
        }),
    decreases s.len(),
{
    if s.len() == 0 {
        assert forall|id: int| #[trigger]
            contains_id(raw_insert(s, n), id) == (contains_id(s, id) || id == n.id) by {
            assert(raw_insert(s, n) == seq![n]);
            if contains_id(raw_insert(s, n), id) {
                let w = choose|w: int| 0 <= w < 1 && seq![n][w].id == id;
                assert(id == n.id);
            }
            if id == n.id {
                assert(seq![n][0].id == id);
            }
            if contains_id(s, id) {
                let w = choose|w: int| 0 <= w < s.len() && s[w].id == id;
                assert(false);
            }
        }
    } else if s.last().id < n.id {
        let r = s.push(n);
        assert forall|id: int| #[trigger]
            contains_id(r, id) == (contains_id(s, id) || id == n.id) by {
            if contains_id(r, id) {
                let w = choose|w: int| 0 <= w < r.len() && r[w].id == id;
                if w < s.len() {
                    assert(s[w].id == id);
                } else {
                    assert(id == n.id);
                }
            }
            if contains_id(s, id) {
                let w = choose|w: int| 0 <= w < s.len() && s[w].id == id;
                assert(r[w].id == id);
            }
            if id == n.id {
                assert(r[s.len() as int].id == id);
            }
        }
        assert(!contains_id(s, n.id)) by {
            if contains_id(s, n.id) {
                let w = choose|w: int| 0 <= w < s.len() && s[w].id == n.id;
                assert(s[w].id <= s.last().id);
                assert(false);
            }
        }
        assert forall|id: int|
            contains_id(s, id) && id != n.id implies #[trigger] node_at(r, id) == node_at(
            s,
            id,
        ) by {
            assert(r.drop_last() =~= s);
        }
        assert(node_at(r, n.id) == n);
    } else if s.last().id == n.id {
        assert(contains_id(s, n.id)) by {
            assert(s[s.len() - 1].id == n.id);
        }
    } else {
        let d = s.drop_last();
        let t = s.last();
        lemma_raw_insert_contents(d, n);
        let r0 = raw_insert(d, n);
        let r = r0.push(t);
        assert(raw_insert(s, n) == r);
        assert forall|id: int| #[trigger]
            contains_id(r, id) == (contains_id(s, id) || id == n.id) by {
            if contains_id(r, id) {
                let w = choose|w: int| 0 <= w < r.len() && r[w].id == id;
                if w < r0.len() {
                    assert(contains_id(r0, id));
                    if contains_id(d, id) {
                        let v = choose|v: int| 0 <= v < d.len() && d[v].id == id;
                        assert(s[v].id == id);
                    }
                } else {
                    assert(id == t.id);
                    assert(s[s.len() - 1].id == id);
                }
            }
            if contains_id(s, id) {
                let w = choose|w: int| 0 <= w < s.len() && s[w].id == id;
                if w < s.len() - 1 {
                    assert(d[w].id == id);
                    assert(contains_id(r0, id));
                    let v = choose|v: int| 0 <= v < r0.len() && r0[v].id == id;
                    assert(r[v].id == id);
                } else {
                    assert(r[r.len() - 1].id == id);
                }
            }
            if id == n.id {
                assert(contains_id(r0, id));
                let v = choose|v: int| 0 <= v < r0.len() && r0[v].id == id;
                assert(r[v].id == id);
            }
        }
        assert(!contains_id(s, n.id) ==> !contains_id(d, n.id)) by {
            if contains_id(d, n.id) {
                let w = choose|w: int| 0 <= w < d.len() && d[w].id == n.id;
                assert(s[w].id == n.id);
            }
        }
        assert(contains_id(s, n.id) ==> contains_id(d, n.id)) by {
            if contains_id(s, n.id) {
                let w = choose|w: int| 0 <= w < s.len() && s[w].id == n.id;
                assert(w < s.len() - 1 || s[w] == t);
                if w < s.len() - 1 {
                    assert(d[w].id == n.id);
                }
            }
        }
        if contains_id(s, n.id) {
            assert(raw_insert(d, n) == d);
            assert(r =~= s);
        }
        assert(r.drop_last() =~= r0);
        assert forall|id: int|
            contains_id(s, id) && id != n.id implies #[trigger] node_at(r, id) == node_at(
            s,
            id,
        ) by {
            if id == t.id {
                assert(node_at(r, id) == t);
                assert(node_at(s, id) == t);
            } else {
                let w = choose|w: int| 0 <= w < s.len() && s[w].id == id;
                assert(w < s.len() - 1);
                assert(d[w].id == id);
                assert(contains_id(d, id));
                assert(node_at(r0, id) == node_at(d, id));
                assert(node_at(r, id) == node_at(r0, id));
                assert(node_at(s, id) == node_at(d, id));
            }
        }
        if !contains_id(s, n.id) {
            assert(t.id != n.id);
            assert(node_at(r, n.id) == node_at(r0, n.id));
            assert(node_at(r0, n.id) == n);
        }
    }
}

/// Dedup law: in a well-formed raw index every id names at most one entry,
/// however many times the scanner observed that id.
pub proof fn lemma_index_dedup(s: Seq<SpecRawNode>)
    requires
        wf_raw(s),
    ensures
        forall|i: int, j: int| 0 <= i < s.len() && 0 <= j < s.len() && i != j ==> s[i].id != s[j].id,
{
}

/// Two well-formed indexes holding the same entries are the same sequence:
/// the id order fixes the layout, whatever order the entries arrived in.
pub proof fn lemma_wf_same_contents(s1: Seq<SpecRawNode>, s2: Seq<SpecRawNode>)
    requires
        wf_raw(s1),
        wf_raw(s2),
        forall|id: int| #[trigger] contains_id(s1, id) == contains_id(s2, id),
        forall|id: int| contains_id(s1, id) ==> #[trigger] node_at(s1, id) == node_at(s2, id),
    ensures
        s1 == s2,
    decreases s1.len() + s2.len(),
{
    if s1.len() == 0 {
        if s2.len() > 0 {
            assert(contains_id(s2, s2[0].id));
            assert(contains_id(s1, s2[0].id));
            let w = choose|w: int| 0 <= w < s1.len() && s1[w].id == s2[0].id;
            assert(false);
        }
        assert(s1 =~= s2);
    } else if s2.len() == 0 {
        assert(contains_id(s1, s1[0].id));
        assert(contains_id(s2, s1[0].id));
        let w = choose|w: int| 0 <= w < s2.len() && s2[w].id == s1[0].id;
        assert(false);
    } else {
        let m1 = s1.last();
        let m2 = s2.last();
        assert(contains_id(s1, m1.id)) by {
            assert(s1[s1.len() - 1].id == m1.id);
        }
        assert(contains_id(s2, m2.id)) by {
            assert(s2[s2.len() - 1].id == m2.id);
        }
        assert(m1.id <= m2.id) by {
            let w = choose|w: int| 0 <= w < s2.len() && s2[w].id == m1.id;
            if w < s2.len() - 1 {
                assert(s2[w].id < m2.id);
            }
        }
        assert(m2.id <= m1.id) by {
            assert(contains_id(s1, m2.id));
            let w = choose|w: int| 0 <= w < s1.len() && s1[w].id == m2.id;
            if w < s1.len() - 1 {
                assert(s1[w].id < m1.id);
            }
        }
        assert(m1.id == m2.id);
        assert(node_at(s1, m1.id) == m1);
        assert(node_at(s2, m2.id) == m2);
        assert(m1 == m2);
        let d1 = s1.drop_last();
        let d2 = s2.drop_last();
        assert forall|id: int| #[trigger] contains_id(d1, id) == contains_id(d2, id) by {
            lemma_drop_last_contains(s1, id);
            lemma_drop_last_contains(s2, id);
        }
        assert forall|id: int|
            contains_id(d1, id) implies #[trigger] node_at(d1, id) == node_at(d2, id) by {
            lemma_drop_last_contains(s1, id);
            lemma_drop_last_contains(s2, id);
            assert(id != m1.id);
            assert(node_at(s1, id) == node_at(d1, id));
            assert(node_at(s2, id) == node_at(d2, id));
            assert(contains_id(s1, id)) by {
                let w = choose|w: int| 0 <= w < d1.len() && d1[w].id == id;
                assert(s1[w].id == id);
            }
        }
        lemma_wf_same_contents(d1, d2);
        assert(s1 =~= d1.push(m1));
        assert(s2 =~= d2.push(m2));
    }
}

/// An id occurs before the last entry exactly when it occurs at all and is
/// not the last (and largest) id.
proof fn lemma_drop_last_contains(s: Seq<SpecRawNode>, id: int)
    requires
        wf_raw(s),
        s.len() > 0,
    ensures
        contains_id(s.drop_last(), id) == (contains_id(s, id) && id != s.last().id),
{
    let d = s.drop_last();
    if contains_id(d, id) {
        let w = choose|w: int| 0 <= w < d.len() && d[w].id == id;
        assert(s[w].id == id);
        assert(s[w].id < s.last().id);
    }
    if contains_id(s, id) && id != s.last().id {
        let w = choose|w: int| 0 <= w < s.len() && s[w].id == id;
        assert(w < s.len() - 1);
        assert(d[w].id == id);
    }
}

/// Insertions into a well-formed index commute: the finished index does
/// not depend on the order in which distinct ids were observed.
pub proof fn lemma_insert_commutes(s: Seq<SpecRawNode>, a: SpecRawNode, b: SpecRawNode)
    requires
        wf_raw(s),
        a.id != b.id,
    ensures
        raw_insert(raw_insert(s, a), b) == raw_insert(raw_insert(s, b), a),
{
    let sa = raw_insert(s, a);
    let sb = raw_insert(s, b);
    let sab = raw_insert(sa, b);
    let sba = raw_insert(sb, a);
    lemma_raw_insert_wf(s, a);
    lemma_raw_insert_wf(s, b);
    lemma_raw_insert_wf(sa, b);
    lemma_raw_insert_wf(sb, a);
    lemma_raw_insert_contents(s, a);
    lemma_raw_insert_contents(s, b);
    lemma_raw_insert_contents(sa, b);
    lemma_raw_insert_contents(sb, a);
    assert forall|id: int| #[trigger] contains_id(sab, id) == contains_id(sba, id) by {
        assert(contains_id(sab, id) == (contains_id(s, id) || id == a.id || id == b.id));
        assert(contains_id(sba, id) == (contains_id(s, id) || id == b.id || id == a.id));
    }
    assert forall|id: int|
        contains_id(sab, id) implies #[trigger] node_at(sab, id) == node_at(sba, id) by {
        if id == a.id {
            if contains_id(s, a.id) {
                assert(node_at(sa, a.id) == node_at(s, a.id));
                assert(node_at(sab, a.id) == node_at(sa, a.id));
                assert(node_at(sba, a.id) == node_at(sb, a.id));
                assert(node_at(sb, a.id) == node_at(s, a.id));
            } else {
                assert(node_at(sa, a.id) == a);
                assert(node_at(sab, a.id) == node_at(sa, a.id));
                assert(!contains_id(sb, a.id));
                assert(node_at(sba, a.id) == a);
            }
        } else if id == b.id {
            if contains_id(s, b.id) {
                assert(node_at(sb, b.id) == node_at(s, b.id));
                assert(node_at(sba, b.id) == node_at(sb, b.id));
                assert(node_at(sab, b.id) == node_at(sa, b.id));
                assert(node_at(sa, b.id) == node_at(s, b.id));
            } else {
                assert(node_at(sb, b.id) == b);
                assert(node_at(sba, b.id) == node_at(sb, b.id));
                assert(!contains_id(sa, b.id));
                assert(node_at(sab, b.id) == b);
            }
        } else {
            assert(contains_id(s, id));
            assert(node_at(sab, id) == node_at(sa, id));
            assert(node_at(sa, id) == node_at(s, id));
            assert(node_at(sba, id) == node_at(sb, id));
            assert(node_at(sb, id) == node_at(s, id));
        }
    }
    lemma_wf_same_contents(sab, sba);
}

} // verus!
