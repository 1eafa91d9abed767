use vstd::prelude::*;
use crate::node::NodeId;

verus! {

/// An immutable ancestry record: `child`'s parent is `parent` for every
/// genomic position in the half-open interval `[left, right)`.
///
/// Edges are totally ordered by the key `(left, parent, child)`; a
/// `TreeSequence` never holds two edges that are equal on that key.
#[derive(Clone, Copy, PartialEq, Eq, Structural, Debug)]
pub struct Edge {
    pub parent: NodeId,
    pub child: NodeId,
    pub left: u64,
    pub right: u64,
}

/// Strict order on the key `(left, parent, child)`, lexicographic.
pub open spec fn edge_key_lt(a: Edge, b: Edge) -> bool {
    ||| a.left < b.left
    ||| (a.left == b.left && a.parent < b.parent)
    ||| (a.left == b.left && a.parent == b.parent && a.child < b.child)
}

/// Equality on the key `(left, parent, child)` (the `right` endpoint is not
/// part of the key).
pub open spec fn edge_key_eq(a: Edge, b: Edge) -> bool {
    a.left == b.left && a.parent == b.parent && a.child == b.child
}

/// The key order is a strict total order: any two edges compare.
pub proof fn lemma_edge_key_total(a: Edge, b: Edge)
    ensures
        edge_key_lt(a, b) || edge_key_lt(b, a) || edge_key_eq(a, b),
        edge_key_lt(a, b) ==> !edge_key_lt(b, a) && !edge_key_eq(a, b),
{
}

impl Edge {
    /// Constructs an edge recording that `child`'s parent is `parent` on
    /// `[left, right)`.
    pub fn new(parent: NodeId, child: NodeId, left: u64, right: u64) -> (e: Edge)
        ensures
            e == (Edge { parent, child, left, right }),
    {
        Edge { parent, child, left, right }
    }

    /// Decides the strict key order `(left, parent, child)`.
    pub fn key_lt(&self, other: &Edge) -> (r: bool)
        ensures
            r == edge_key_lt(*self, *other),
    {
        self.left < other.left
            || (self.left == other.left && self.parent < other.parent)
            || (self.left == other.left && self.parent == other.parent
                && self.child < other.child)
    }

    /// Decides key equality `(left, parent, child)`.
    pub fn key_eq(&self, other: &Edge) -> (r: bool)
        ensures
            r == edge_key_eq(*self, *other),
    {
        self.left == other.left && self.parent == other.parent && self.child == other.child
    }
}

/// A sequence of edges in strictly ascending key order: this is the ordering
/// invariant of a `TreeSequence`, and it entails that no two held edges are
/// equal on the key `(left, parent, child)`.
pub open spec fn edges_sorted(s: Seq<Edge>) -> bool {
    forall|i: int, j: int| 0 <= i < j < s.len() ==> edge_key_lt(#[trigger] s[i], #[trigger] s[j])
}

/// No node id named by `s` reaches `n`: every `child` and `parent` is below it.
pub open spec fn edges_below(s: Seq<Edge>, n: int) -> bool {
    forall|i: int| 0 <= i < s.len() ==> (#[trigger] s[i]).child < n && s[i].parent < n
}

/// No child is named by two edges whose intervals overlap: at most one parent
/// per child per genomic position.
pub open spec fn child_disjoint(s: Seq<Edge>) -> bool {
    forall|i: int, j: int|
        0 <= i < j < s.len() && (#[trigger] s[i]).child == (#[trigger] s[j]).child
            ==> (s[i].right <= s[j].left || s[j].right <= s[i].left)
}

/// The ordering invariant rules duplicates out: in a key-sorted sequence no
/// two edges are equal on the key `(left, parent, child)`.
pub proof fn lemma_sorted_key_unique(s: Seq<Edge>)
    requires
        edges_sorted(s),
    ensures
        forall|i: int, j: int|
            0 <= i < j < s.len() ==> !edge_key_eq(#[trigger] s[i], #[trigger] s[j]),
{
}

/// Where a new edge lands in a key-sorted sequence: before the first element
/// whose key exceeds `e`'s.
pub open spec fn sorted_insert(s: Seq<Edge>, e: Edge) -> Seq<Edge>
    decreases s.len(),
{
    if s.len() == 0 {
        seq![e]
    } else if edge_key_lt(e, s[0]) {
        seq![e] + s
    } else {
        seq![s[0]] + sorted_insert(s.drop_first(), e)
    }
}

/// Inserting at the position the search found is `sorted_insert`: `i` is the
/// first index whose key exceeds `e`'s.
pub proof fn lemma_sorted_insert_at(s: Seq<Edge>, e: Edge, i: int)
    requires
        0 <= i <= s.len(),
        forall|j: int| 0 <= j < i ==> !edge_key_lt(e, #[trigger] s[j]),
        i < s.len() ==> edge_key_lt(e, s[i]),
    ensures
        sorted_insert(s, e) == s.insert(i, e),
    decreases s.len(),
{
    if s.len() == 0 {
        assert(sorted_insert(s, e) =~= s.insert(0, e));
    } else if i == 0 {
        assert(sorted_insert(s, e) =~= s.insert(0, e));
    } else {
        lemma_sorted_insert_at(s.drop_first(), e, i - 1);
        assert(sorted_insert(s, e) =~= s.insert(i, e));
    }
}

/// `sorted_insert` keeps the ordering invariant when no edge in `s` is
/// key-equal to `e`.
pub proof fn lemma_sorted_insert_sorted(s: Seq<Edge>, e: Edge)
    requires
        edges_sorted(s),
        forall|i: int| 0 <= i < s.len() ==> !edge_key_eq(#[trigger] s[i], e),
    ensures
        edges_sorted(sorted_insert(s, e)),
    decreases s.len(),
{
    if s.len() == 0 {
    } else if edge_key_lt(e, s[0]) {
        let r = seq![e] + s;
        assert forall|i: int, j: int| 0 <= i < j < r.len() implies edge_key_lt(
            #[trigger] r[i],
            #[trigger] r[j],
        ) by {
            if i == 0 {
                if j > 1 {
                    assert(edge_key_lt(s[0], s[j - 1]));
                }
            }
        }
    } else {
        let t = s.drop_first();
        assert forall|i: int, j: int| 0 <= i < j < t.len() implies edge_key_lt(
            #[trigger] t[i],
            #[trigger] t[j],
        ) by {
            assert(t[i] == s[i + 1] && t[j] == s[j + 1]);
        }
        assert forall|i: int| 0 <= i < t.len() implies !edge_key_eq(#[trigger] t[i], e) by {
            assert(t[i] == s[i + 1]);
        }
        lemma_sorted_insert_sorted(t, e);
        let r = seq![s[0]] + sorted_insert(t, e);
        lemma_edge_key_total(s[0], e);
        assert(edge_key_lt(s[0], e));
        assert forall|i: int, j: int| 0 <= i < j < r.len() implies edge_key_lt(
            #[trigger] r[i],
            #[trigger] r[j],
        ) by {
            if i == 0 {
                lemma_sorted_insert_membership(t, e, j - 1);
            }
        }
    }
}

/// Every element of `sorted_insert(s, e)` is `e` or an element of `s`.
pub proof fn lemma_sorted_insert_membership(s: Seq<Edge>, e: Edge, k: int)
    requires
        0 <= k < sorted_insert(s, e).len(),
    ensures
        sorted_insert(s, e)[k] == e || exists|i: int|
            0 <= i < s.len() && s[i] == sorted_insert(s, e)[k],
    decreases s.len(),
{
    if s.len() == 0 {
    } else if edge_key_lt(e, s[0]) {
        if k > 0 {
            assert(sorted_insert(s, e)[k] == s[k - 1]);
        }
    } else {
        if k > 0 {
            lemma_sorted_insert_membership(s.drop_first(), e, k - 1);
            if sorted_insert(s.drop_first(), e)[k - 1] != e {
                let i = choose|i: int|
                    0 <= i < s.drop_first().len() && s.drop_first()[i] == sorted_insert(
                        s.drop_first(),
                        e,
                    )[k - 1];
                assert(s[i + 1] == sorted_insert(s, e)[k]);
            }
        }
    }
}

/// `sorted_insert` places `e` at a single position and moves nothing else.
pub proof fn lemma_sorted_insert_is_insert(s: Seq<Edge>, e: Edge)
    ensures
        exists|i: int| 0 <= i <= s.len() && sorted_insert(s, e) == s.insert(i, e),
    decreases s.len(),
{
    if s.len() == 0 {
        assert(sorted_insert(s, e) =~= s.insert(0, e));
    } else if edge_key_lt(e, s[0]) {
        assert(sorted_insert(s, e) =~= s.insert(0, e));
    } else {
        lemma_sorted_insert_is_insert(s.drop_first(), e);
        let i = choose|i: int|
            0 <= i <= s.drop_first().len() && sorted_insert(s.drop_first(), e)
                == s.drop_first().insert(i, e);
        assert(sorted_insert(s, e) =~= s.insert(i + 1, e));
    }
}

} // verus!
