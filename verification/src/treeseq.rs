use vstd::prelude::*;
use crate::node::NodeId;
use crate::edge::Edge;
use crate::edge::edge_key_lt;
use crate::edge::edge_key_eq;
use crate::edge::edges_sorted;
use crate::edge::edges_below;
use crate::edge::sorted_insert;
use crate::edge::lemma_sorted_insert_at;
use crate::edge::lemma_sorted_insert_sorted;
use crate::tree::Tree;
use vstd::pervasive::VecAdditionalExecFns;
use crate::sweep::min_right;
use crate::sweep::kept_edges;
use crate::sweep::arrivals;
use crate::sweep::remaining;
use crate::sweep::step_current;
use crate::sweep::step_upcoming;
use crate::sweep::parents_of;
use crate::sweep::cleared;
use crate::sweep::assigned;
use crate::sweep::step_tree;
use crate::sweep::lemma_below_kept;
use crate::sweep::lemma_below_arrivals;
use crate::sweep::lemma_below_add;
use crate::sweep::lemma_step_measure;

verus! {

/// An ordered, duplicate-free collection of ancestry edges plus the count of
/// nodes they name: the finalized, queryable ancestry history.
#[derive(Debug)]
pub struct TreeSequence {
    num_nodes: usize,
    edges: Vec<Edge>,
}

impl View for TreeSequence {
    type V = Seq<Edge>;

    /// The held edges, in ascending `(left, parent, child)` order.
    closed spec fn view(&self) -> Seq<Edge> {
        self.edges@
    }
}

/// How `add_edge` grows the node count: to at least one past the larger id
/// the new edge names.
pub open spec fn nodes_after(n: int, child: NodeId, parent: NodeId) -> int {
    let m = if child >= parent {
        child + 1
    } else {
        parent + 1
    };
    if n >= m {
        n
    } else {
        m
    }
}

impl TreeSequence {
    /// The number of nodes: one past the largest id any held edge names.
    pub closed spec fn node_count(&self) -> int {
        self.num_nodes as int
    }

    /// The ordering invariant: edges sit in strictly ascending key order (so
    /// no two are key-equal), and every named node id is below the node
    /// count.
    pub open spec fn wf(&self) -> bool {
        edges_sorted(self@) && edges_below(self@, self.node_count())
    }

    /// An empty tree sequence: no edges, no nodes.
    pub fn new() -> (ts: TreeSequence)
        ensures
            ts@ == Seq::<Edge>::empty(),
            ts.node_count() == 0,
            ts.wf(),
    {
        let ts = TreeSequence { num_nodes: 0, edges: Vec::new() };
        proof {
            assert(ts@ =~= Seq::<Edge>::empty());
        }
        ts
    }

    /// Inserts a new edge at its sort position and widens the node count to
    /// cover the ids it names. Inserting an edge that is key-equal to a held
    /// one is a structural conflict — an invariant violation in the caller's
    /// edge generation — and is ruled out up front.
    pub fn add_edge(&mut self, child: NodeId, parent: NodeId, left: u64, right: u64)
        requires
            old(self).wf(),
            child < usize::MAX,
            parent < usize::MAX,
            forall|i: int|
                0 <= i < old(self)@.len() ==> !edge_key_eq(
                    #[trigger] old(self)@[i],
                    Edge { parent, child, left, right },
                ),
        ensures
            final(self).wf(),
            final(self)@ == sorted_insert(old(self)@, Edge { parent, child, left, right }),
            final(self).node_count() == nodes_after(old(self).node_count(), child, parent),
    {
        let e = Edge { parent, child, left, right };
        let bigger: usize = if child >= parent {
            child
        } else {
            parent
        };
        if bigger + 1 > self.num_nodes {
            self.num_nodes = bigger + 1;
        }
        let ghost s = self.edges@;
        let mut i: usize = 0;
        while i < self.edges.len() && !e.key_lt(&self.edges[i])
            invariant
                s == self.edges@,
                e == (Edge { parent, child, left, right }),
                0 <= i <= s.len(),
                forall|j: int| 0 <= j < i ==> !edge_key_lt(e, #[trigger] s[j]),
            decreases s.len() - i,
        {
            i = i + 1;
        }
        proof {
            lemma_sorted_insert_at(s, e, i as int);
            lemma_sorted_insert_sorted(s, e);
            s.insert_ensures(i as int, e);
            assert forall|k: int| 0 <= k < s.insert(i as int, e).len() implies (#[trigger] s.insert(
                i as int,
                e,
            )[k]).child < self.num_nodes && s.insert(i as int, e)[k].parent < self.num_nodes by {
                if k < i {
                    assert(s.insert(i as int, e)[k] == s[k]);
                } else if k > i {
                    assert(s.insert(i as int, e)[k] == s[k - 1]);
                }
            }
        }
        self.edges.insert(i, e);
    }
}

impl TreeSequence {
    /// The held edges in descending key order, so that the next edge to
    /// arrive in a sweep sits at the back.
    fn reversed_edges(&self) -> (r: Vec<Edge>)
        ensures
            r@ == self@.reverse(),
    {
        let mut rev: Vec<Edge> = Vec::new();
        let mut i: usize = self.edges.len();
        while i > 0
            invariant
                0 <= i <= self.edges@.len(),
                rev@.len() == self.edges@.len() - i,
                forall|k: int|
                    0 <= k < rev@.len() ==> #[trigger] rev@[k] == self.edges@[self.edges@.len() - 1
                        - k],
            decreases i,
        {
            i = i - 1;
            let e = self.edges[i];
            rev.push(e);
        }
        proof {
            assert(rev@ =~= self.edges@.reverse());
        }
        rev
    }

    /// A sweep that materializes a fresh `Tree` per local interval.
    pub fn iter(&self) -> (it: TreeSequenceIterator)
        requires
            self.wf(),
        ensures
            it.wf(),
            it.nodes() == self.node_count(),
            it.cur_seq() == Seq::<Edge>::empty(),
            it.up_seq() == self@.reverse(),
    {
        let rev = self.reversed_edges();
        proof {
            lemma_below_reverse(self@, self.node_count());
        }
        TreeSequenceIterator::new(self.num_nodes, rev)
    }

    /// A sweep that owns one long-lived `Tree` and mutates only the entries
    /// that change between neighbouring local intervals.
    pub fn streaming_iter(&self) -> (it: TreeSequenceStreamingIterator)
        requires
            self.wf(),
        ensures
            it.wf(),
            it.cur_seq() == Seq::<Edge>::empty(),
            it.up_seq() == self@.reverse(),
            it.tree_view() == Seq::new(self.node_count() as nat, |i: int| None::<NodeId>),
    {
        let rev = self.reversed_edges();
        proof {
            lemma_below_reverse(self@, self.node_count());
        }
        TreeSequenceStreamingIterator::new(self.num_nodes, rev)
    }

    /// Runs `f` once per local tree, in genomic order, with the tree's index.
    /// Sugar over the streaming sweep.
    #[verifier::loop_isolation(false)]
    pub fn for_each_with_index<F: Fn(&Tree, usize)>(&self, f: F)
        requires
            self.wf(),
            2 * self@.len() < usize::MAX as int,
            forall|t: &Tree, i: usize| #[trigger] f.requires((t, i)),
    {
        let mut it = self.streaming_iter();
        let mut tree_index: usize = 0;
        proof {
            assert(it.up_seq().len() == self@.len());
        }
        loop
            invariant
                forall|t: &Tree, i: usize| #[trigger] f.requires((t, i)),
                it.wf(),
                tree_index + it.cur_seq().len() + 2 * it.up_seq().len() <= 2 * self@.len(),
            decreases it.cur_seq().len() + 2 * it.up_seq().len(),
        {
            let ghost pre_cur = it.cur_seq();
            let ghost pre_up = it.up_seq();
            it.advance();
            proof {
                lemma_step_measure(pre_cur, pre_up);
            }
            match it.get() {
                None => {
                    break;
                },
                Some(t) => {
                    f(t, tree_index);
                    tree_index = tree_index + 1;
                },
            }
        }
    }
}

/// A bound on the node ids named by a sequence of edges carries over to the
/// reversed sequence.
proof fn lemma_below_reverse(s: Seq<Edge>, n: int)
    requires
        edges_below(s, n),
    ensures
        edges_below(s.reverse(), n),
{
    assert(forall|k: int|
        0 <= k < s.reverse().len() ==> #[trigger] s.reverse()[k] == s[s.len() - 1 - k]);
}

/// The sweep that yields an owned `Tree` per maximal genomic interval of
/// constant topology, in left-to-right order. Non-restartable; exhausted once
/// both the active and the upcoming edge sets are empty.
pub struct TreeSequenceIterator {
    num_nodes: usize,
    current_edges: Vec<Edge>,
    upcoming_edges: Vec<Edge>,
}

impl TreeSequenceIterator {
    /// The active edges, in the order the sweep keeps them.
    pub closed spec fn cur_seq(&self) -> Seq<Edge> {
        self.current_edges@
    }

    /// The not-yet-active edges, in descending key order (next at the back).
    pub closed spec fn up_seq(&self) -> Seq<Edge> {
        self.upcoming_edges@
    }

    /// The size of every tree this sweep yields.
    pub closed spec fn nodes(&self) -> int {
        self.num_nodes as int
    }

    /// Every held edge names only node ids below the tree size.
    pub open spec fn wf(&self) -> bool {
        edges_below(self.cur_seq(), self.nodes()) && edges_below(self.up_seq(), self.nodes())
    }

    fn new(num_nodes: usize, edges: Vec<Edge>) -> (it: TreeSequenceIterator)
        requires
            edges_below(edges@, num_nodes as int),
        ensures
            it.wf(),
            it.nodes() == num_nodes as int,
            it.cur_seq() == Seq::<Edge>::empty(),
            it.up_seq() == edges@,
    {
        let it = TreeSequenceIterator {
            num_nodes,
            current_edges: Vec::new(),
            upcoming_edges: edges,
        };
        proof {
            assert(it.cur_seq() =~= Seq::<Edge>::empty());
        }
        it
    }

    /// Advances the sweep by one boundary event batch and yields the tree of
    /// the next maximal interval, or `None` once every edge has expired: the
    /// eviction of the edges expiring soonest, then the arrival of the edges
    /// starting next, then a fresh parent array read off the active set.
    #[verifier::loop_isolation(false)]
    pub fn next(&mut self) -> (t: Option<Tree>)
        requires
            old(self).wf(),
        ensures
            final(self).wf(),
            final(self).nodes() == old(self).nodes(),
            final(self).cur_seq() == step_current(old(self).cur_seq(), old(self).up_seq()),
            final(self).up_seq() == step_upcoming(old(self).cur_seq(), old(self).up_seq()),
            (t is Some) <==> final(self).cur_seq().len() + final(self).up_seq().len() > 0,
            t matches Some(tr) ==> tr@ == parents_of(
                final(self).cur_seq(),
                old(self).nodes() as nat,
            ),
    {
        let ghost cur0 = self.current_edges@;
        let ghost up0 = self.upcoming_edges@;
        let ghost n = self.num_nodes as int;
        let ghost kept_full = if cur0.len() == 0 {
            cur0
        } else {
            kept_edges(cur0, min_right(cur0))
        };

        // Evict the batch of active edges that expire next.
        if self.current_edges.len() > 0 {
            let mut m: u64 = self.current_edges[0].right;
            let mut i: usize = 1;
            proof {
                assert(cur0.subrange(0, 1).len() == 1);
                assert(cur0.subrange(0, 1)[0] == cur0[0]);
            }
            while i < self.current_edges.len()
                invariant
                    1 <= i <= cur0.len(),
                    m == min_right(cur0.subrange(0, i as int)),
                decreases cur0.len() - i,
            {
                proof {
                    assert(cur0.subrange(0, i + 1).drop_last() =~= cur0.subrange(0, i as int));
                    assert(cur0.subrange(0, i + 1).last() == cur0[i as int]);
                }
                if self.current_edges[i].right < m {
                    m = self.current_edges[i].right;
                }
                i = i + 1;
            }
            proof {
                assert(cur0.subrange(0, cur0.len() as int) =~= cur0);
            }
            let mut kept: Vec<Edge> = Vec::new();
            let mut j: usize = 0;
            proof {
                assert(cur0.subrange(0, 0) =~= Seq::<Edge>::empty());
                assert(kept@ =~= kept_edges(cur0.subrange(0, 0), m));
            }
            while j < self.current_edges.len()
                invariant
                    0 <= j <= cur0.len(),
                    kept@ == kept_edges(cur0.subrange(0, j as int), m),
                decreases cur0.len() - j,
            {
                proof {
                    assert(cur0.subrange(0, j + 1).drop_last() =~= cur0.subrange(0, j as int));
                    assert(cur0.subrange(0, j + 1).last() == cur0[j as int]);
                }
                let e = self.current_edges[j];
                if e.right > m {
                    kept.push(e);
                }
                j = j + 1;
            }
            proof {
                assert(cur0.subrange(0, cur0.len() as int) =~= cur0);
            }
            self.current_edges = kept;
        }
        proof {
            assert(self.current_edges@ == kept_full);
        }

        // Move in the batch of upcoming edges that start next.
        if self.upcoming_edges.len() > 0 {
            let l: u64 = self.upcoming_edges[self.upcoming_edges.len() - 1].left;
            proof {
                assert(kept_full + arrivals(up0, l) == self.current_edges@ + arrivals(
                    self.upcoming_edges@,
                    l,
                ));
            }
            while self.upcoming_edges.len() > 0 && self.upcoming_edges[self.upcoming_edges.len()
                - 1].left <= l
                invariant
                    self.num_nodes as int == n,
                    kept_full + arrivals(up0, l) == self.current_edges@ + arrivals(
                        self.upcoming_edges@,
                        l,
                    ),
                    remaining(up0, l) == remaining(self.upcoming_edges@, l),
                decreases self.upcoming_edges@.len(),
            {
                let ghost upb = self.upcoming_edges@;
                let ghost curb = self.current_edges@;
                let e = self.upcoming_edges.pop().unwrap();
                self.current_edges.push(e);
                proof {
                    assert(self.upcoming_edges@ =~= upb.drop_last());
                    assert(arrivals(upb, l) == seq![e] + arrivals(upb.drop_last(), l));
                    assert(curb + (seq![e] + arrivals(upb.drop_last(), l)) =~= curb.push(e)
                        + arrivals(upb.drop_last(), l));
                }
            }
            proof {
                assert(arrivals(self.upcoming_edges@, l) =~= Seq::<Edge>::empty());
                assert(self.current_edges@ + Seq::<Edge>::empty() =~= self.current_edges@);
                assert(self.current_edges@ == kept_full + arrivals(up0, l));
                assert(remaining(self.upcoming_edges@, l) == self.upcoming_edges@);
            }
        }

        proof {
            assert(self.current_edges@ == step_current(cur0, up0));
            assert(self.upcoming_edges@ == step_upcoming(cur0, up0));
            if cur0.len() > 0 {
                lemma_below_kept(cur0, min_right(cur0), n);
            }
            if up0.len() > 0 {
                lemma_below_arrivals(up0, up0.last().left, n);
                lemma_below_add(kept_full, arrivals(up0, up0.last().left), n);
            }
        }

        if self.current_edges.len() == 0 && self.upcoming_edges.len() == 0 {
            None
        } else {
            let ghost curf = self.current_edges@;
            let mut parent: Vec<Option<NodeId>> = Vec::new();
            let mut k: usize = 0;
            proof {
                assert(parent@ =~= Seq::new(0 as nat, |q: int| None::<NodeId>));
            }
            while k < self.num_nodes
                invariant
                    0 <= k <= self.num_nodes,
                    parent@ == Seq::new(k as nat, |q: int| None::<NodeId>),
                decreases self.num_nodes - k,
            {
                parent.push(None);
                proof {
                    assert(parent@ =~= Seq::new((k + 1) as nat, |q: int| None::<NodeId>));
                }
                k = k + 1;
            }
            proof {
                assert(parent@ =~= parents_of(curf.subrange(0, 0), n as nat)) by {
                    assert(curf.subrange(0, 0) =~= Seq::<Edge>::empty());
                }
            }
            let mut j2: usize = 0;
            while j2 < self.current_edges.len()
                invariant
                    0 <= j2 <= curf.len(),
                    parent@ == parents_of(curf.subrange(0, j2 as int), n as nat),
                    parent@.len() == n,
                decreases curf.len() - j2,
            {
                proof {
                    assert(curf.subrange(0, j2 + 1).drop_last() =~= curf.subrange(0, j2 as int));
                    assert(curf.subrange(0, j2 + 1).last() == curf[j2 as int]);
                }
                let e = self.current_edges[j2];
                parent.set(e.child, Some(e.parent));
                j2 = j2 + 1;
            }
            proof {
                assert(curf.subrange(0, curf.len() as int) =~= curf);
            }
            Some(Tree::new(parent))
        }
    }
}

/// The sweep that owns one long-lived `Tree`, mutating only the entries that
/// change at each boundary: callers advance before each get, and the borrow a
/// get hands out is valid only until the next advance.
pub struct TreeSequenceStreamingIterator {
    tree: Tree,
    current_edges: Vec<Edge>,
    upcoming_edges: Vec<Edge>,
}

impl TreeSequenceStreamingIterator {
    /// The active edges, in the order the sweep keeps them.
    pub closed spec fn cur_seq(&self) -> Seq<Edge> {
        self.current_edges@
    }

    /// The not-yet-active edges, in descending key order (next at the back).
    pub closed spec fn up_seq(&self) -> Seq<Edge> {
        self.upcoming_edges@
    }

    /// The parent array of the long-lived tree.
    pub closed spec fn tree_view(&self) -> Seq<Option<NodeId>> {
        self.tree@
    }

    /// Every held edge names only node ids within the long-lived tree.
    pub open spec fn wf(&self) -> bool {
        edges_below(self.cur_seq(), self.tree_view().len() as int) && edges_below(
            self.up_seq(),
            self.tree_view().len() as int,
        )
    }

    fn new(num_nodes: usize, edges: Vec<Edge>) -> (it: TreeSequenceStreamingIterator)
        requires
            edges_below(edges@, num_nodes as int),
        ensures
            it.wf(),
            it.cur_seq() == Seq::<Edge>::empty(),
            it.up_seq() == edges@,
            it.tree_view() == Seq::new(num_nodes as nat, |i: int| None::<NodeId>),
    {
        let mut parent: Vec<Option<NodeId>> = Vec::new();
        let mut k: usize = 0;
        proof {
            assert(parent@ =~= Seq::new(0 as nat, |q: int| None::<NodeId>));
        }
        while k < num_nodes
            invariant
                0 <= k <= num_nodes,
                parent@ == Seq::new(k as nat, |q: int| None::<NodeId>),
            decreases num_nodes - k,
        {
            parent.push(None);
            proof {
                assert(parent@ =~= Seq::new((k + 1) as nat, |q: int| None::<NodeId>));
            }
            k = k + 1;
        }
        let it = TreeSequenceStreamingIterator {
            tree: Tree::new(parent),
            current_edges: Vec::new(),
            upcoming_edges: edges,
        };
        proof {
            assert(it.cur_seq() =~= Seq::<Edge>::empty());
        }
        it
    }

    /// Advances the sweep by one boundary event batch: evicted children
    /// become roots in the long-lived tree, arriving children take their
    /// recorded parents, and the active and upcoming sets step as in the
    /// owned-tree sweep.
    #[verifier::loop_isolation(false)]
    pub fn advance(&mut self)
        requires
            old(self).wf(),
        ensures
            final(self).wf(),
            final(self).tree_view().len() == old(self).tree_view().len(),
            final(self).cur_seq() == step_current(old(self).cur_seq(), old(self).up_seq()),
            final(self).up_seq() == step_upcoming(old(self).cur_seq(), old(self).up_seq()),
            final(self).tree_view() == step_tree(
                old(self).tree_view(),
                old(self).cur_seq(),
                old(self).up_seq(),
            ),
    {
        let ghost cur0 = self.current_edges@;
        let ghost up0 = self.upcoming_edges@;
        let ghost t0 = self.tree@;
        let ghost n = t0.len() as int;
        let ghost kept_full = if cur0.len() == 0 {
            cur0
        } else {
            kept_edges(cur0, min_right(cur0))
        };
        let ghost t1_full = if cur0.len() == 0 {
            t0
        } else {
            cleared(t0, cur0, min_right(cur0))
        };

        // Evict the batch of active edges that expire next, rooting their
        // children in the long-lived tree.
        if self.current_edges.len() > 0 {
            let mut m: u64 = self.current_edges[0].right;
            let mut i: usize = 1;
            proof {
                assert(cur0.subrange(0, 1).len() == 1);
                assert(cur0.subrange(0, 1)[0] == cur0[0]);
            }
            while i < self.current_edges.len()
                invariant
                    1 <= i <= cur0.len(),
                    m == min_right(cur0.subrange(0, i as int)),
                decreases cur0.len() - i,
            {
                proof {
                    assert(cur0.subrange(0, i + 1).drop_last() =~= cur0.subrange(0, i as int));
                    assert(cur0.subrange(0, i + 1).last() == cur0[i as int]);
                }
                if self.current_edges[i].right < m {
                    m = self.current_edges[i].right;
                }
                i = i + 1;
            }
            proof {
                assert(cur0.subrange(0, cur0.len() as int) =~= cur0);
            }
            let mut j: usize = 0;
            proof {
                assert(self.tree@ =~= cleared(t0, cur0.subrange(0, 0), m)) by {
                    assert(cur0.subrange(0, 0) =~= Seq::<Edge>::empty());
                }
            }
            while j < self.current_edges.len()
                invariant
                    0 <= j <= cur0.len(),
                    self.current_edges@ == cur0,
                    self.upcoming_edges@ == up0,
                    self.tree@ == cleared(t0, cur0.subrange(0, j as int), m),
                    self.tree@.len() == t0.len(),
                decreases cur0.len() - j,
            {
                proof {
                    assert(cur0.subrange(0, j + 1).drop_last() =~= cur0.subrange(0, j as int));
                    assert(cur0.subrange(0, j + 1).last() == cur0[j as int]);
                }
                let e = self.current_edges[j];
                if e.right == m {
                    self.tree.parent.set(e.child, None);
                }
                j = j + 1;
            }
            proof {
                assert(cur0.subrange(0, cur0.len() as int) =~= cur0);
            }
            let mut kept: Vec<Edge> = Vec::new();
            let mut j1: usize = 0;
            proof {
                assert(kept@ =~= kept_edges(cur0.subrange(0, 0), m)) by {
                    assert(cur0.subrange(0, 0) =~= Seq::<Edge>::empty());
                }
            }
            while j1 < self.current_edges.len()
                invariant
                    0 <= j1 <= cur0.len(),
                    kept@ == kept_edges(cur0.subrange(0, j1 as int), m),
                decreases cur0.len() - j1,
            {
                proof {
                    assert(cur0.subrange(0, j1 + 1).drop_last() =~= cur0.subrange(0, j1 as int));
                    assert(cur0.subrange(0, j1 + 1).last() == cur0[j1 as int]);
                }
                let e = self.current_edges[j1];
                if e.right > m {
                    kept.push(e);
                }
                j1 = j1 + 1;
            }
            proof {
                assert(cur0.subrange(0, cur0.len() as int) =~= cur0);
            }
            self.current_edges = kept;
        }
        proof {
            assert(self.current_edges@ == kept_full);
            assert(self.tree@ == t1_full);
        }

        // Move in the batch of upcoming edges that start next, pointing their
        // children at the recorded parents.
        if self.upcoming_edges.len() > 0 {
            let l: u64 = self.upcoming_edges[self.upcoming_edges.len() - 1].left;
            let ghost mut moved: Seq<Edge> = Seq::empty();
            proof {
                assert(kept_full + arrivals(up0, l) == self.current_edges@ + arrivals(
                    self.upcoming_edges@,
                    l,
                ));
                assert(self.tree@ =~= assigned(t1_full, moved));
                assert(self.upcoming_edges@ =~= up0.subrange(0, self.upcoming_edges@.len() as int));
            }
            while self.upcoming_edges.len() > 0 && self.upcoming_edges[self.upcoming_edges.len()
                - 1].left <= l
                invariant
                    kept_full + arrivals(up0, l) == self.current_edges@ + arrivals(
                        self.upcoming_edges@,
                        l,
                    ),
                    remaining(up0, l) == remaining(self.upcoming_edges@, l),
                    arrivals(up0, l) == moved + arrivals(self.upcoming_edges@, l),
                    self.tree@ == assigned(t1_full, moved),
                    self.tree@.len() == t0.len(),
                    self.upcoming_edges@.len() <= up0.len(),
                    self.upcoming_edges@ == up0.subrange(0, self.upcoming_edges@.len() as int),
                decreases self.upcoming_edges@.len(),
            {
                let ghost upb = self.upcoming_edges@;
                let ghost curb = self.current_edges@;
                let ghost moved0 = moved;
                let e = self.upcoming_edges.pop().unwrap();
                self.current_edges.push(e);
                proof {
                    assert(self.upcoming_edges@ =~= upb.drop_last());
                    assert(arrivals(upb, l) == seq![e] + arrivals(upb.drop_last(), l));
                    assert(curb + (seq![e] + arrivals(upb.drop_last(), l)) =~= curb.push(e)
                        + arrivals(upb.drop_last(), l));
                    assert(moved0 + (seq![e] + arrivals(upb.drop_last(), l)) =~= moved0.push(e)
                        + arrivals(upb.drop_last(), l));
                    assert(e == up0[upb.len() - 1]);
                    assert(e.child < t0.len());
                    moved = moved0.push(e);
                    assert(self.upcoming_edges@ =~= up0.subrange(
                        0,
                        self.upcoming_edges@.len() as int,
                    ));
                }
                self.tree.parent.set(e.child, Some(e.parent));
                proof {
                    assert(self.tree@ == assigned(t1_full, moved)) by {
                        assert(moved.drop_last() =~= moved0);
                        assert(moved.last() == e);
                        assert(assigned(t1_full, moved) == if e.child < assigned(
                            t1_full,
                            moved0,
                        ).len() {
                            assigned(t1_full, moved0).update(e.child as int, Some(e.parent))
                        } else {
                            assigned(t1_full, moved0)
                        });
                    }
                }
            }
            proof {
                assert(arrivals(self.upcoming_edges@, l) =~= Seq::<Edge>::empty());
                assert(self.current_edges@ + Seq::<Edge>::empty() =~= self.current_edges@);
                assert(moved + Seq::<Edge>::empty() =~= moved);
                assert(moved == arrivals(up0, l));
                assert(self.current_edges@ == kept_full + arrivals(up0, l));
                assert(remaining(self.upcoming_edges@, l) == self.upcoming_edges@);
            }
        }

        proof {
            assert(self.current_edges@ == step_current(cur0, up0));
            assert(self.upcoming_edges@ == step_upcoming(cur0, up0));
            assert(self.tree@ == step_tree(t0, cur0, up0));
            if cur0.len() > 0 {
                lemma_below_kept(cur0, min_right(cur0), n);
            }
            if up0.len() > 0 {
                lemma_below_arrivals(up0, up0.last().left, n);
                lemma_below_add(kept_full, arrivals(up0, up0.last().left), n);
            }
        }
    }

    /// A borrow of the long-lived tree, or `None` once the sweep is
    /// exhausted. Valid only until the next advance.
    pub fn get(&self) -> (r: Option<&Tree>)
        ensures
            (r is Some) <==> self.cur_seq().len() + self.up_seq().len() > 0,
            r matches Some(tr) ==> tr@ == self.tree_view(),
    {
        if self.current_edges.len() == 0 && self.upcoming_edges.len() == 0 {
            None
        } else {
            Some(&self.tree)
        }
    }
}

impl PartialEq for TreeSequence {
    fn eq(&self, other: &TreeSequence) -> (r: bool) {
        if self.num_nodes != other.num_nodes {
            return false;
        }
        if self.edges.len() != other.edges.len() {
            return false;
        }
        let mut i: usize = 0;
        while i < self.edges.len()
            invariant
                0 <= i <= self.edges@.len(),
                self.edges@.len() == other.edges@.len(),
                forall|j: int| 0 <= j < i ==> self.edges@[j] == other.edges@[j],
            decreases self.edges@.len() - i,
        {
            let a = self.edges[i];
            let b = other.edges[i];
            if !(a == b) {
                return false;
            }
            i = i + 1;
        }
        proof {
            assert(self.edges@ =~= other.edges@);
        }
        true
    }
}

impl vstd::std_specs::cmp::PartialEqSpecImpl for TreeSequence {
    open spec fn obeys_eq_spec() -> bool {
        true
    }

    open spec fn eq_spec(&self, other: &TreeSequence) -> bool {
        self.node_count() == other.node_count() && self@ == other@
    }
}

} // verus!
