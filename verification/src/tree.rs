use vstd::prelude::*;
use crate::node::NodeId;

verus! {

/// The parent-pointer forest of ancestry over one maximal genomic interval of
/// constant topology: `parent[u] == Some(p)` means node `u`'s parent is `p`
/// there, and `None` (or an id beyond the array) means `u` is a root.
#[derive(Debug)]
pub struct Tree {
    pub parent: Vec<Option<NodeId>>,
}

impl View for Tree {
    type V = Seq<Option<NodeId>>;

    open spec fn view(&self) -> Seq<Option<NodeId>> {
        self.parent@
    }
}

impl PartialEq for Tree {
    fn eq(&self, other: &Tree) -> (r: bool) {
        if self.parent.len() != other.parent.len() {
            return false;
        }
        let mut i: usize = 0;
        while i < self.parent.len()
            invariant
                0 <= i <= self.parent@.len(),
                self.parent@.len() == other.parent@.len(),
                forall|j: int| 0 <= j < i ==> self.parent@[j] == other.parent@[j],
            decreases self.parent@.len() - i,
        {
            let a = self.parent[i];
            let b = other.parent[i];
            let same: bool = match (a, b) {
                (None, None) => true,
                (Some(x), Some(y)) => x == y,
                _ => false,
            };
            if !same {
                return false;
            }
            i = i + 1;
        }
        proof {
            assert(self.parent@ =~= other.parent@);
        }
        true
    }
}

impl vstd::std_specs::cmp::PartialEqSpecImpl for Tree {
    open spec fn obeys_eq_spec() -> bool {
        true
    }

    open spec fn eq_spec(&self, other: &Tree) -> bool {
        self@ == other@
    }
}

/// The recorded parent of `u`: absence of data (an id beyond the array) is a
/// root, not a fault.
pub open spec fn parent_of(t: Seq<Option<NodeId>>, u: NodeId) -> Option<NodeId> {
    if u < t.len() {
        t[u as int]
    } else {
        None
    }
}

/// The ancestor chain `[x, parent(x), parent(parent(x)), ...]`, cut off after
/// `fuel` steps. It always starts with `x`, so it is never empty.
pub open spec fn chain_from(t: Seq<Option<NodeId>>, x: NodeId, fuel: nat) -> Seq<NodeId>
    decreases fuel,
{
    if fuel == 0 {
        seq![x]
    } else {
        match parent_of(t, x) {
            None => seq![x],
            Some(p) => seq![x] + chain_from(t, p, (fuel - 1) as nat),
        }
    }
}

/// The ancestor chain of `x`, with fuel enough for any acyclic parent array:
/// a chain that leaves the array's bounds ends there, and a chain inside the
/// bounds visits each node at most once, so `t.len()` parent steps suffice.
pub open spec fn chain(t: Seq<Option<NodeId>>, x: NodeId) -> Seq<NodeId> {
    chain_from(t, x, t.len() as nat)
}

/// An acyclic parent array: every ancestor chain reaches a node with no
/// recorded parent. A cyclic array would leave `chain` cut off by its fuel at
/// a node that still has a parent.
pub open spec fn tree_wf(t: Seq<Option<NodeId>>) -> bool {
    forall|x: NodeId| parent_of(t, (#[trigger] chain(t, x)).last()) is None
}

/// An ancestor chain is never empty and starts at the queried node.
pub proof fn lemma_chain_starts(t: Seq<Option<NodeId>>, x: NodeId, fuel: nat)
    ensures
        chain_from(t, x, fuel).len() >= 1,
        chain_from(t, x, fuel)[0] == x,
{
    if fuel == 0 {
    } else {
        match parent_of(t, x) {
            None => {},
            Some(p) => {
                assert(chain_from(t, x, fuel) == seq![x] + chain_from(t, p, (fuel - 1) as nat));
            },
        }
    }
}

/// The `j`-th entry of a chain counted from its root end.
pub open spec fn from_root(c: Seq<NodeId>, j: int) -> NodeId {
    c[c.len() - 1 - j]
}

/// The length of the longest common suffix of two chains: how many ancestors
/// the two nodes share, counted from the root end.
pub open spec fn common_suffix_len(cu: Seq<NodeId>, cv: Seq<NodeId>) -> nat
    decreases cu.len(),
{
    if cu.len() == 0 || cv.len() == 0 {
        0
    } else if cu.last() == cv.last() {
        1 + common_suffix_len(cu.drop_last(), cv.drop_last())
    } else {
        0
    }
}

/// The most recent common ancestor of `u` and `v`: `None` when their chains
/// end at different roots, else the deepest node on which the chains still
/// agree, walking in from the root ends.
pub open spec fn mrca_spec(t: Seq<Option<NodeId>>, u: NodeId, v: NodeId) -> Option<NodeId> {
    let cu = chain(t, u);
    let cv = chain(t, v);
    if cu.last() != cv.last() {
        None
    } else {
        Some(cu[cu.len() - common_suffix_len(cu, cv)])
    }
}

impl Tree {
    /// Wraps a parent array as a tree snapshot.
    pub fn new(parent: Vec<Option<NodeId>>) -> (t: Tree)
        ensures
            t@ == parent@,
    {
        Tree { parent }
    }

    /// The recorded parent of `u`; `None` for a root or for an id beyond the
    /// array's bounds.
    pub fn parent(&self, u: NodeId) -> (r: Option<NodeId>)
        ensures
            r == parent_of(self@, u),
    {
        if u < self.parent.len() {
            self.parent[u]
        } else {
            None
        }
    }

    /// The ancestor chain of `x`, from `x` up to its root. Never empty.
    pub fn ancestor_chain(&self, x: NodeId) -> (r: Vec<NodeId>)
        requires
            tree_wf(self@),
        ensures
            r@ == chain(self@, x),
            r@.len() >= 1,
    {
        let ghost t = self@;
        let mut out: Vec<NodeId> = Vec::new();
        out.push(x);
        let mut node: NodeId = x;
        let ghost mut fuel: nat = t.len() as nat;
        proof {
            assert(chain(t, x) == out@.drop_last() + chain_from(t, node, fuel)) by {
                assert(out@.drop_last() =~= Seq::<NodeId>::empty());
                assert(Seq::<NodeId>::empty() + chain_from(t, node, fuel) =~= chain_from(
                    t,
                    node,
                    fuel,
                ));
            }
        }
        loop
            invariant
                t == self@,
                tree_wf(t),
                out@.len() >= 1,
                out@.last() == node,
                chain(t, x) == out@.drop_last() + chain_from(t, node, fuel),
            decreases fuel,
        {
            match self.parent(node) {
                None => {
                    proof {
                        assert(chain_from(t, node, fuel) =~= seq![node]);
                        assert(out@.drop_last() + seq![node] =~= out@);
                    }
                    return out;
                },
                Some(p) => {
                    proof {
                        assert(fuel > 0) by {
                            if fuel == 0 {
                                assert(chain_from(t, node, fuel) =~= seq![node]);
                                assert(chain(t, x).last() == node);
                            }
                        }
                        assert(chain_from(t, node, fuel) == seq![node] + chain_from(
                            t,
                            p,
                            (fuel - 1) as nat,
                        ));
                        fuel = (fuel - 1) as nat;
                        assert(out@.push(p).drop_last() =~= out@);
                        assert(out@.drop_last() + (seq![node] + chain_from(t, p, fuel))
                            =~= out@.push(p).drop_last() + chain_from(t, p, fuel));
                    }
                    out.push(p);
                    node = p;
                },
            }
        }
    }

    /// The most recent common ancestor of `u` and `v`, or `None` when the two
    /// nodes sit under different roots. `mrca(u, u)` is `Some(u)`.
    pub fn mrca(&self, u: NodeId, v: NodeId) -> (r: Option<NodeId>)
        requires
            tree_wf(self@),
        ensures
            r == mrca_spec(self@, u, v),
    {
        let u_anc = self.ancestor_chain(u);
        let v_anc = self.ancestor_chain(v);
        let ghost cu = u_anc@;
        let ghost cv = v_anc@;

        let u_len = u_anc.len();
        let v_len = v_anc.len();
        if u_anc[u_len - 1] != v_anc[v_len - 1] {
            return None;
        }
        let mut common_ancestor: NodeId = u_anc[u_len - 1];
        let min_len: usize = if u_len < v_len {
            u_len
        } else {
            v_len
        };

        let mut i: usize = 0;
        while i < min_len
            invariant
                cu == u_anc@,
                cv == v_anc@,
                cu == chain(self@, u),
                cv == chain(self@, v),
                u_len == cu.len(),
                v_len == cv.len(),
                min_len == if u_len < v_len {
                    u_len
                } else {
                    v_len
                },
                0 <= i <= min_len,
                forall|j: int| 0 <= j < i ==> #[trigger] from_root(cu, j) == from_root(cv, j),
                common_ancestor == if i == 0 {
                    cu.last()
                } else {
                    cu[cu.len() - i]
                },
                cu.last() == cv.last(),
            decreases min_len - i,
        {
            if u_anc[u_len - i - 1] != v_anc[v_len - i - 1] {
                proof {
                    lemma_common_suffix_stops(cu, cv, i as int);
                }
                return Some(common_ancestor);
            }
            common_ancestor = u_anc[u_len - i - 1];
            i = i + 1;
        }
        proof {
            lemma_common_suffix_at_min(cu, cv, i as int);
        }
        Some(common_ancestor)
    }
}

/// If the chains agree on their last `i` entries but differ at the next one,
/// the common suffix has length exactly `i`.
proof fn lemma_common_suffix_stops(cu: Seq<NodeId>, cv: Seq<NodeId>, i: int)
    requires
        0 <= i < cu.len(),
        0 <= i < cv.len(),
        forall|j: int| 0 <= j < i ==> #[trigger] from_root(cu, j) == from_root(cv, j),
        from_root(cu, i) != from_root(cv, i),
    ensures
        common_suffix_len(cu, cv) == i,
    decreases i,
{
    if i == 0 {
        assert(from_root(cu, 0) == cu.last());
        assert(from_root(cv, 0) == cv.last());
    } else {
        assert(from_root(cu, 0) == from_root(cv, 0));
        assert(cu.last() == cv.last());
        let cu1 = cu.drop_last();
        let cv1 = cv.drop_last();
        assert forall|j: int| 0 <= j < i - 1 implies #[trigger] from_root(cu1, j) == from_root(
            cv1,
            j,
        ) by {
            assert(from_root(cu1, j) == from_root(cu, j + 1));
            assert(from_root(cv1, j) == from_root(cv, j + 1));
        }
        assert(from_root(cu1, i - 1) == from_root(cu, i));
        assert(from_root(cv1, i - 1) == from_root(cv, i));
        lemma_common_suffix_stops(cu1, cv1, i - 1);
    }
}

/// If the chains agree on their last `i` entries and `i` is the length of the
/// shorter one, the common suffix has length exactly `i`.
proof fn lemma_common_suffix_at_min(cu: Seq<NodeId>, cv: Seq<NodeId>, i: int)
    requires
        i == if cu.len() < cv.len() {
            cu.len() as int
        } else {
            cv.len() as int
        },
        forall|j: int| 0 <= j < i ==> #[trigger] from_root(cu, j) == from_root(cv, j),
    ensures
        common_suffix_len(cu, cv) == i,
    decreases i,
{
    if i == 0 {
    } else {
        assert(from_root(cu, 0) == from_root(cv, 0));
        assert(cu.last() == cv.last());
        let cu1 = cu.drop_last();
        let cv1 = cv.drop_last();
        assert forall|j: int| 0 <= j < i - 1 implies #[trigger] from_root(cu1, j) == from_root(
            cv1,
            j,
        ) by {
            assert(from_root(cu1, j) == from_root(cu, j + 1));
            assert(from_root(cv1, j) == from_root(cv, j + 1));
        }
        lemma_common_suffix_at_min(cu1, cv1, i - 1);
    }
}

/// The common suffix length is symmetric in its two chains.
proof fn lemma_common_suffix_sym(cu: Seq<NodeId>, cv: Seq<NodeId>)
    ensures
        common_suffix_len(cu, cv) == common_suffix_len(cv, cu),
    decreases cu.len(),
{
    if cu.len() == 0 || cv.len() == 0 {
    } else if cu.last() == cv.last() {
        lemma_common_suffix_sym(cu.drop_last(), cv.drop_last());
    }
}

/// The chains agree on every entry of their common suffix, and its length is
/// at most either chain's length.
proof fn lemma_common_suffix_agrees(cu: Seq<NodeId>, cv: Seq<NodeId>)
    ensures
        common_suffix_len(cu, cv) <= cu.len(),
        common_suffix_len(cu, cv) <= cv.len(),
        forall|j: int|
            0 <= j < common_suffix_len(cu, cv) ==> #[trigger] from_root(cu, j) == from_root(cv, j),
    decreases cu.len(),
{
    if cu.len() == 0 || cv.len() == 0 {
    } else if cu.last() == cv.last() {
        let cu1 = cu.drop_last();
        let cv1 = cv.drop_last();
        lemma_common_suffix_agrees(cu1, cv1);
        let k = common_suffix_len(cu, cv);
        assert forall|j: int| 0 <= j < k implies #[trigger] from_root(cu, j) == from_root(
            cv,
            j,
        ) by {
            if j == 0 {
                assert(from_root(cu, 0) == cu.last());
                assert(from_root(cv, 0) == cv.last());
            } else {
                assert(from_root(cu1, j - 1) == from_root(cv1, j - 1));
                assert(from_root(cu1, j - 1) == from_root(cu, j));
                assert(from_root(cv1, j - 1) == from_root(cv, j));
            }
        }
    }
}

/// A chain of equal chains is its whole length.
proof fn lemma_common_suffix_self(c: Seq<NodeId>)
    ensures
        common_suffix_len(c, c) == c.len(),
    decreases c.len(),
{
    if c.len() > 0 {
        lemma_common_suffix_self(c.drop_last());
    }
}

/// The most recent common ancestor does not depend on the order of its two
/// arguments: `mrca(u, v) == mrca(v, u)` on any parent array.
pub proof fn lemma_mrca_symmetric(t: Seq<Option<NodeId>>, u: NodeId, v: NodeId)
    ensures
        mrca_spec(t, u, v) == mrca_spec(t, v, u),
{
    let cu = chain(t, u);
    let cv = chain(t, v);
    lemma_chain_starts(t, u, t.len() as nat);
    lemma_chain_starts(t, v, t.len() as nat);
    lemma_common_suffix_sym(cu, cv);
    lemma_common_suffix_agrees(cu, cv);
    if cu.last() == cv.last() {
        let k = common_suffix_len(cu, cv);
        assert(k >= 1);
        assert(from_root(cu, k - 1) == from_root(cv, k - 1));
        assert(cu[cu.len() - k] == from_root(cu, k - 1));
        assert(cv[cv.len() - k] == from_root(cv, k - 1));
    }
}

/// A node is its own most recent common ancestor: `mrca(u, u) == Some(u)` on
/// any parent array.
pub proof fn lemma_mrca_identity(t: Seq<Option<NodeId>>, u: NodeId)
    ensures
        mrca_spec(t, u, u) == Some(u),
{
    let c = chain(t, u);
    lemma_chain_starts(t, u, t.len() as nat);
    lemma_common_suffix_self(c);
}

} // verus!
