use vstd::prelude::*;
use crate::node::NodeId;
use crate::edge::Edge;
use crate::edge::edge_key_eq;
use crate::edge::edges_sorted;
use crate::edge::edges_below;
use crate::edge::child_disjoint;
use crate::edge::sorted_insert;
use crate::edge::lemma_sorted_insert_sorted;
use crate::edge::lemma_sorted_insert_is_insert;
use crate::treeseq::TreeSequence;
use crate::treeseq::nodes_after;

verus! {

/// A lineage edge that the builder has opened and not yet closed: `child`'s
/// parent is `parent` from genomic position `left` onward, until a transplant
/// or the finalizing step closes it.
#[derive(Clone, Copy)]
pub struct OpenEdge {
    pub child: NodeId,
    pub parent: NodeId,
    pub left: u64,
}

/// The builder's abstract state: the closed edges so far (sorted), the node
/// count they imply, and the currently open edges in the order they were
/// opened.
pub struct BuilderModel {
    pub edges: Seq<Edge>,
    pub nodes: int,
    pub open: Seq<OpenEdge>,
}

/// The edge that closing an open edge at `right` produces.
pub open spec fn closed_edge(o: OpenEdge, right: u64) -> Edge {
    Edge { parent: o.parent, child: o.child, left: o.left, right }
}

/// How one closed edge changes the builder's abstract state.
pub open spec fn model_add(m: BuilderModel, e: Edge) -> BuilderModel {
    BuilderModel {
        edges: sorted_insert(m.edges, e),
        nodes: nodes_after(m.nodes, e.child, e.parent),
        open: m.open,
    }
}

/// The index of the first open edge for `c`, or `-1` when `c` has none.
pub open spec fn find_open(open: Seq<OpenEdge>, c: NodeId) -> int
    decreases open.len(),
{
    if open.len() == 0 {
        -1
    } else if open[0].child == c {
        0
    } else if find_open(open.drop_first(), c) == -1 {
        -1
    } else {
        find_open(open.drop_first(), c) + 1
    }
}

/// One transplant step for a single child: close its open edge at the cursor
/// if it has one (a child with no open edge is silently left alone), then
/// open a fresh edge from the cursor if a new parent is given.
pub open spec fn transplant_one(
    m: BuilderModel,
    c: NodeId,
    new_parent: Option<NodeId>,
    cursor: u64,
) -> BuilderModel {
    let i = find_open(m.open, c);
    let m1 = if i >= 0 {
        BuilderModel {
            edges: sorted_insert(m.edges, closed_edge(m.open[i], cursor)),
            nodes: nodes_after(m.nodes, m.open[i].child, m.open[i].parent),
            open: m.open.remove(i),
        }
    } else {
        m
    };
    match new_parent {
        Some(p) => BuilderModel {
            edges: m1.edges,
            nodes: m1.nodes,
            open: m1.open.push(OpenEdge { child: c, parent: p, left: cursor }),
        },
        None => m1,
    }
}

/// A whole transplant call: the single-child step applied to each named
/// child, left to right.
pub open spec fn transplant_seq(
    m: BuilderModel,
    children: Seq<NodeId>,
    new_parent: Option<NodeId>,
    cursor: u64,
) -> BuilderModel
    decreases children.len(),
{
    if children.len() == 0 {
        m
    } else {
        transplant_one(
            transplant_seq(m, children.drop_last(), new_parent, cursor),
            children.last(),
            new_parent,
            cursor,
        )
    }
}

/// The open edges an insert call adds: one per child, all under the same
/// parent, all starting at the cursor, in the children's order.
pub open spec fn opened(children: Seq<NodeId>, parent: NodeId, left: u64) -> Seq<OpenEdge> {
    children.map(|i: int, c: NodeId| OpenEdge { child: c, parent, left })
}

/// The finalizing step: close every open edge, in order, at `right`.
pub open spec fn close_seq(m: BuilderModel, open: Seq<OpenEdge>, right: u64) -> BuilderModel
    decreases open.len(),
{
    if open.len() == 0 {
        m
    } else {
        model_add(close_seq(m, open.drop_last(), right), closed_edge(open.last(), right))
    }
}

/// No two open edges name the same child: at most one open edge per child.
pub open spec fn open_distinct(open: Seq<OpenEdge>) -> bool {
    forall|i: int, j: int|
        0 <= i < j < open.len() ==> (#[trigger] open[i]).child != (#[trigger] open[j]).child
}

/// The builder's invariant at cursor position `cursor`:
/// - the closed edges are sorted, name only nodes below the count, and each
///   spans a non-empty interval that ends at or before the cursor;
/// - no child is named by two closed edges with overlapping intervals;
/// - the open edges name distinct children, started at or before the cursor,
///   with ids that leave room for the node count to grow past them;
/// - a child's closed edges all end by the start of its open edge.
pub open spec fn model_wf(m: BuilderModel, cursor: u64) -> bool {
    &&& edges_sorted(m.edges)
    &&& edges_below(m.edges, m.nodes)
    &&& child_disjoint(m.edges)
    &&& forall|i: int|
        0 <= i < m.edges.len() ==> (#[trigger] m.edges[i]).left < m.edges[i].right
            && m.edges[i].right <= cursor
    &&& open_distinct(m.open)
    &&& forall|j: int|
        0 <= j < m.open.len() ==> (#[trigger] m.open[j]).left <= cursor && m.open[j].child
            < usize::MAX && m.open[j].parent < usize::MAX
    &&& forall|i: int, j: int|
        0 <= i < m.edges.len() && 0 <= j < m.open.len() && (#[trigger] m.edges[i]).child == (
        #[trigger] m.open[j]).child ==> m.edges[i].right <= m.open[j].left
}

/// The abstract state of a freshly constructed builder.
pub open spec fn initial_model() -> BuilderModel {
    BuilderModel { edges: Seq::empty(), nodes: 0, open: Seq::empty() }
}

/// `find_open` finds the first open edge of a child, and only fails when the
/// child has none.
proof fn lemma_find_open_props(open: Seq<OpenEdge>, c: NodeId)
    ensures
        -1 <= find_open(open, c) < open.len(),
        find_open(open, c) == -1 ==> forall|q: int|
            0 <= q < open.len() ==> (#[trigger] open[q]).child != c,
        find_open(open, c) >= 0 ==> 0 <= find_open(open, c) < open.len() && open[find_open(
            open,
            c,
        )].child == c && forall|q: int|
            0 <= q < find_open(open, c) ==> (#[trigger] open[q]).child != c,
    decreases open.len(),
{
    if open.len() == 0 {
    } else if open[0].child == c {
    } else {
        let rest = open.drop_first();
        lemma_find_open_props(rest, c);
        assert(rest.len() == open.len() - 1);
        let fr = find_open(rest, c);
        if fr == -1 {
            assert(find_open(open, c) == -1);
            assert forall|q: int| 0 <= q < open.len() implies (#[trigger] open[q]).child != c by {
                if q > 0 {
                    assert(open[q] == rest[q - 1]);
                }
            }
        } else {
            assert(0 <= fr < rest.len());
            assert(find_open(open, c) == fr + 1);
            assert(open[fr + 1] == rest[fr]);
            assert(open[fr + 1].child == c);
            assert forall|q: int| 0 <= q < fr + 1 implies (#[trigger] open[q]).child != c by {
                if q > 0 {
                    assert(open[q] == rest[q - 1]);
                }
            }
        }
    }
}

/// A linear search that stops at the first open edge of `c` computes
/// `find_open`.
proof fn lemma_find_open_at(open: Seq<OpenEdge>, c: NodeId, j: int)
    requires
        0 <= j <= open.len(),
        forall|q: int| 0 <= q < j ==> (#[trigger] open[q]).child != c,
        j < open.len() ==> open[j].child == c,
    ensures
        find_open(open, c) == if j == open.len() {
            -1
        } else {
            j
        },
    decreases open.len(),
{
    if open.len() == 0 {
    } else if open[0].child == c {
        assert(j == 0);
    } else {
        assert(forall|q: int|
            0 <= q < open.drop_first().len() ==> open.drop_first()[q] == open[q + 1]);
        lemma_find_open_at(open.drop_first(), c, j - 1);
    }
}

/// The single-child transplant step preserves the builder invariant when the
/// child's open edge (if any) started strictly before the cursor; the node
/// count never shrinks, and every open edge it leaves behind either is the
/// newly opened one or was already there.
proof fn lemma_transplant_one_wf(m: BuilderModel, c: NodeId, np: Option<NodeId>, cursor: u64)
    requires
        model_wf(m, cursor),
        c < usize::MAX,
        np matches Some(p) ==> p < usize::MAX,
        forall|j: int|
            0 <= j < m.open.len() && (#[trigger] m.open[j]).child == c ==> m.open[j].left < cursor,
    ensures
        model_wf(transplant_one(m, c, np, cursor), cursor),
        transplant_one(m, c, np, cursor).nodes >= m.nodes,
        forall|j: int|
            0 <= j < transplant_one(m, c, np, cursor).open.len() ==> (#[trigger] transplant_one(
                m,
                c,
                np,
                cursor,
            ).open[j]).child == c || exists|q: int|
                0 <= q < m.open.len() && m.open[q] == transplant_one(m, c, np, cursor).open[j],
{
    let i = find_open(m.open, c);
    lemma_find_open_props(m.open, c);
    let m1 = if i >= 0 {
        BuilderModel {
            edges: sorted_insert(m.edges, closed_edge(m.open[i], cursor)),
            nodes: nodes_after(m.nodes, m.open[i].child, m.open[i].parent),
            open: m.open.remove(i),
        }
    } else {
        m
    };
    if i >= 0 {
        let o = m.open[i];
        let e = closed_edge(o, cursor);
        assert(o.child == c);
        assert(o.left < cursor);
        // No held edge is key-equal to the newly closed one: a held edge for
        // the same child ends at or before the open edge's start, and spans a
        // non-empty interval, so it starts strictly earlier.
        assert forall|k: int| 0 <= k < m.edges.len() implies !edge_key_eq(
            #[trigger] m.edges[k],
            e,
        ) by {
            if m.edges[k].child == c {
                assert(m.edges[k].right <= o.left);
                assert(m.edges[k].left < o.left);
            }
        }
        lemma_sorted_insert_sorted(m.edges, e);
        lemma_sorted_insert_is_insert(m.edges, e);
        let pos = choose|pos: int|
            0 <= pos <= m.edges.len() && sorted_insert(m.edges, e) == m.edges.insert(pos, e);
        m.edges.insert_ensures(pos, e);
        m.open.remove_ensures(i);
        assert(m1.edges.len() == m.edges.len() + 1);

        // Every element of the new edge sequence is the closed edge or one of
        // the old ones, at a shifted index.
        assert forall|k: int| 0 <= k < m1.edges.len() implies (#[trigger] m1.edges[k]) == e || (k
            < pos && m1.edges[k] == m.edges[k]) || (k > pos && m1.edges[k] == m.edges[k - 1]) by {}

        // Every remaining open edge is an old one at a shifted index, and
        // none of them names `c`.
        assert forall|q: int| 0 <= q < m1.open.len() implies ((q < i && #[trigger] m1.open[q]
            == m.open[q]) || (q >= i && m1.open[q] == m.open[q + 1])) && m1.open[q].child != c by {
            if q < i {
                assert(m1.open[q] == m.open[q]);
            } else {
                assert(m1.open[q] == m.open[q + 1]);
            }
        }

        assert(edges_below(m1.edges, m1.nodes)) by {
            assert forall|k: int| 0 <= k < m1.edges.len() implies (#[trigger] m1.edges[k]).child
                < m1.nodes && m1.edges[k].parent < m1.nodes by {
                if m1.edges[k] != e {
                    if k < pos {
                        assert(m1.edges[k] == m.edges[k]);
                    } else {
                        assert(m1.edges[k] == m.edges[k - 1]);
                    }
                }
            }
        }
        assert(child_disjoint(m1.edges)) by {
            assert forall|a: int, b: int|
                0 <= a < b < m1.edges.len() && (#[trigger] m1.edges[a]).child == (
                #[trigger] m1.edges[b]).child implies (m1.edges[a].right <= m1.edges[b].left
                || m1.edges[b].right <= m1.edges[a].left) by {
                if m1.edges[a] == e && m1.edges[b] != e {
                    assert(m1.edges[b].right <= o.left);
                } else if m1.edges[a] != e && m1.edges[b] == e {
                    assert(m1.edges[a].right <= o.left);
                }
            }
        }
        assert forall|k: int| 0 <= k < m1.edges.len() implies (#[trigger] m1.edges[k]).left
            < m1.edges[k].right && m1.edges[k].right <= cursor by {}
        assert(open_distinct(m1.open)) by {
            assert forall|a: int, b: int|
                0 <= a < b < m1.open.len() implies (#[trigger] m1.open[a]).child != (
                #[trigger] m1.open[b]).child by {
                if a < i && b < i {
                    assert(m.open[a].child != m.open[b].child);
                } else if a < i {
                    assert(m.open[a].child != m.open[b + 1].child);
                } else {
                    assert(m.open[a + 1].child != m.open[b + 1].child);
                }
            }
        }
        assert forall|q: int| 0 <= q < m1.open.len() implies (#[trigger] m1.open[q]).left <= cursor
            && m1.open[q].child < usize::MAX && m1.open[q].parent < usize::MAX by {}
        assert forall|k: int, q: int|
            0 <= k < m1.edges.len() && 0 <= q < m1.open.len() && (#[trigger] m1.edges[k]).child == (
            #[trigger] m1.open[q]).child implies m1.edges[k].right <= m1.open[q].left by {
            assert(m1.open[q].child != c);
            assert(m1.edges[k] != e);
            let ko: int = if k < pos {
                k
            } else {
                k - 1
            };
            let qo: int = if q < i {
                q
            } else {
                q + 1
            };
            assert(m1.edges[k] == m.edges[ko]);
            assert(m1.open[q] == m.open[qo]);
        }
        assert(model_wf(m1, cursor));
    } else {
        assert(m1 == m);
        assert forall|q: int| 0 <= q < m1.open.len() implies (#[trigger] m1.open[q]).child != c by {
            assert(m1.open[q] == m.open[q]);
        }
    }
    assert(model_wf(m1, cursor));
    assert(forall|q: int| 0 <= q < m1.open.len() ==> (#[trigger] m1.open[q]).child != c);
    assert(m1.nodes >= m.nodes);
    let r = transplant_one(m, c, np, cursor);
    match np {
        Some(p) => {
            let added = OpenEdge { child: c, parent: p, left: cursor };
            assert(r.open == m1.open.push(added));
            assert(r.edges == m1.edges);
            assert(r.nodes == m1.nodes);
            assert(r.open[m1.open.len() as int] == added);
            assert(forall|q: int| 0 <= q < m1.open.len() ==> #[trigger] r.open[q] == m1.open[q]);
            assert(open_distinct(r.open)) by {
                assert forall|a: int, b: int|
                    0 <= a < b < r.open.len() implies (#[trigger] r.open[a]).child != (
                    #[trigger] r.open[b]).child by {
                    if b < m1.open.len() {
                        assert(r.open[a] == m1.open[a] && r.open[b] == m1.open[b]);
                    } else {
                        assert(r.open[a] == m1.open[a]);
                        assert(r.open[b] == added);
                    }
                }
            }
            assert forall|k: int, q: int|
                0 <= k < r.edges.len() && 0 <= q < r.open.len() && (#[trigger] r.edges[k]).child
                    == (#[trigger] r.open[q]).child implies r.edges[k].right <= r.open[q].left by {
                if q < m1.open.len() {
                    assert(r.open[q] == m1.open[q]);
                } else {
                    assert(r.open[q] == added);
                    assert(r.edges[k].right <= cursor);
                }
            }
            assert(model_wf(r, cursor));
        },
        None => {
            assert(r == m1);
        },
    }
    assert forall|j: int| 0 <= j < r.open.len() implies (#[trigger] r.open[j]).child == c || exists|
        q: int,
    | 0 <= q < m.open.len() && m.open[q] == r.open[j] by {
        if j < m1.open.len() {
            assert(r.open[j] == m1.open[j]);
            if i >= 0 {
                if j < i {
                    assert(m.open[j] == m1.open[j]);
                } else {
                    assert(m.open[j + 1] == m1.open[j]);
                }
            } else {
                assert(m.open[j] == m1.open[j]);
            }
        }
    }
}

/// A sequential, mutation-free-looking construction interface: it accumulates
/// open lineage edges against a genomic cursor and closes them into an
/// immutable `TreeSequence`. Each operation consumes the builder and returns
/// it, so no half-applied state is ever observable.
pub struct TreeSequenceBuilder {
    ts: TreeSequence,
    last_breakpoint: u64,
    curr_edges: Vec<OpenEdge>,
}

impl TreeSequenceBuilder {
    /// The genomic cursor: the position at which subsequent operations open
    /// and close edges.
    pub closed spec fn cursor(&self) -> u64 {
        self.last_breakpoint
    }

    /// The builder's abstract state.
    pub closed spec fn model(&self) -> BuilderModel {
        BuilderModel {
            edges: self.ts@,
            nodes: self.ts.node_count(),
            open: self.curr_edges@,
        }
    }

    /// The builder's invariant.
    pub open spec fn wf(&self) -> bool {
        model_wf(self.model(), self.cursor())
    }

    /// A fresh builder: cursor at the origin, nothing open, nothing closed.
    pub fn new() -> (b: TreeSequenceBuilder)
        ensures
            b.wf(),
            b.cursor() == 0,
            b.model() == initial_model(),
    {
        let b = TreeSequenceBuilder {
            ts: TreeSequence::new(),
            last_breakpoint: 0,
            curr_edges: Vec::new(),
        };
        proof {
            assert(b.curr_edges@ =~= Seq::<OpenEdge>::empty());
        }
        b
    }

    /// Opens a new edge at the cursor for each child, all under `parent`.
    /// Each named child must not already have an open edge — opening a second
    /// one would later close two overlapping intervals for one child.
    #[verifier::loop_isolation(false)]
    pub fn insert(self, children: Vec<NodeId>, parent: NodeId) -> (r: Self)
        requires
            self.wf(),
            parent < usize::MAX,
            forall|i: int| 0 <= i < children@.len() ==> #[trigger] children@[i] < usize::MAX,
            forall|i: int, j: int|
                0 <= i < j < children@.len() ==> children@[i] != children@[j],
            forall|i: int, j: int|
                0 <= i < children@.len() && 0 <= j < self.model().open.len()
                    ==> #[trigger] children@[i] != (#[trigger] self.model().open[j]).child,
        ensures
            r.wf(),
            r.cursor() == self.cursor(),
            r.model().edges == self.model().edges,
            r.model().nodes == self.model().nodes,
            r.model().open == self.model().open + opened(children@, parent, self.cursor()),
    {
        let ghost open0 = self.curr_edges@;
        let mut b = self;
        let mut i: usize = 0;
        proof {
            assert(b.curr_edges@ =~= open0 + opened(
                children@.subrange(0, 0),
                parent,
                b.last_breakpoint,
            ));
        }
        while i < children.len()
            invariant
                0 <= i <= children@.len(),
                b.ts == self.ts,
                b.last_breakpoint == self.cursor(),
                b.curr_edges@ == open0 + opened(
                    children@.subrange(0, i as int),
                    parent,
                    self.cursor(),
                ),
            decreases children@.len() - i,
        {
            let c = children[i];
            b.curr_edges.push(OpenEdge { child: c, parent, left: b.last_breakpoint });
            proof {
                assert(b.curr_edges@ =~= open0 + opened(
                    children@.subrange(0, i + 1),
                    parent,
                    self.cursor(),
                ));
            }
            i = i + 1;
        }
        proof {
            assert(children@.subrange(0, children@.len() as int) =~= children@);
            let open2 = open0 + opened(children@, parent, self.cursor());
            assert forall|a: int, q: int|
                0 <= a < q < open2.len() implies (#[trigger] open2[a]).child != (
            #[trigger] open2[q]).child by {
                if a >= open0.len() {
                    assert(open2[a].child == children@[a - open0.len()]);
                    assert(open2[q].child == children@[q - open0.len()]);
                } else if q >= open0.len() {
                    assert(open2[q].child == children@[q - open0.len()]);
                }
            }
            assert forall|q: int| 0 <= q < open2.len() implies (#[trigger] open2[q]).left
                <= self.cursor() && open2[q].child < usize::MAX && open2[q].parent
                < usize::MAX by {
                if q >= open0.len() {
                    assert(open2[q] == opened(children@, parent, self.cursor())[q - open0.len()]);
                }
            }
            assert forall|k: int, q: int|
                0 <= k < b.ts@.len() && 0 <= q < open2.len() && (#[trigger] b.ts@[k]).child == (
            #[trigger] open2[q]).child implies b.ts@[k].right <= open2[q].left by {
                if q >= open0.len() {
                    assert(open2[q] == opened(children@, parent, self.cursor())[q - open0.len()]);
                    assert(open2[q].left == self.cursor());
                }
            }
        }
        b
    }

    /// Advances the genomic cursor. It only moves forward; edges opened at an
    /// earlier position stay open across it.
    pub fn breakpoint(self, breakpoint: u64) -> (r: Self)
        requires
            self.wf(),
            breakpoint >= self.cursor(),
        ensures
            r.wf(),
            r.cursor() == breakpoint,
            r.model() == self.model(),
    {
        TreeSequenceBuilder {
            ts: self.ts,
            last_breakpoint: breakpoint,
            curr_edges: self.curr_edges,
        }
    }

    /// For each named child: closes its open edge at the cursor if it has one
    /// (a child with none is silently left alone), then opens a fresh edge
    /// under the new parent if one is given; with `None` the child is a root
    /// for subsequent trees until re-inserted. A named child's open edge must
    /// have started strictly before the cursor, so that closing it yields a
    /// non-empty interval.
    #[verifier::loop_isolation(false)]
    pub fn transplant(self, children: Vec<NodeId>, new_parent: Option<NodeId>) -> (r: Self)
        requires
            self.wf(),
            forall|i: int| 0 <= i < children@.len() ==> #[trigger] children@[i] < usize::MAX,
            forall|i: int, j: int|
                0 <= i < j < children@.len() ==> children@[i] != children@[j],
            new_parent matches Some(p) ==> p < usize::MAX,
            forall|i: int, j: int|
                0 <= i < children@.len() && 0 <= j < self.model().open.len() && (
                #[trigger] self.model().open[j]).child == #[trigger] children@[i]
                    ==> self.model().open[j].left < self.cursor(),
        ensures
            r.wf(),
            r.cursor() == self.cursor(),
            r.model() == transplant_seq(self.model(), children@, new_parent, self.cursor()),
    {
        let ghost m0 = self.model();
        let mut b = self;
        let mut i: usize = 0;
        proof {
            assert(children@.subrange(0, 0) =~= Seq::<NodeId>::empty());
        }
        while i < children.len()
            invariant
                0 <= i <= children@.len(),
                b.last_breakpoint == self.cursor(),
                b.wf(),
                b.model() == transplant_seq(m0, children@.subrange(0, i as int), new_parent, self.cursor()),
                forall|k: int, j: int|
                    i <= k < children@.len() && 0 <= j < b.model().open.len() && (
                    #[trigger] b.model().open[j]).child == #[trigger] children@[k]
                        ==> b.model().open[j].left < self.cursor(),
            decreases children@.len() - i,
        {
            let ghost mpre = b.model();
            let c = children[i];

            // Find the first (and, by the invariant, only) open edge for `c`.
            let mut j: usize = 0;
            while j < b.curr_edges.len() && b.curr_edges[j].child != c
                invariant
                    0 <= j <= b.curr_edges@.len(),
                    forall|q: int| 0 <= q < j ==> (#[trigger] b.curr_edges@[q]).child != c,
                decreases b.curr_edges@.len() - j,
            {
                j = j + 1;
            }
            proof {
                lemma_find_open_at(mpre.open, c, j as int);
                lemma_transplant_one_wf(mpre, c, new_parent, self.cursor());
            }

            // Close the open edge, if the child had one.
            if j < b.curr_edges.len() {
                let o = b.curr_edges.remove(j);
                b.ts.add_edge(o.child, o.parent, o.left, b.last_breakpoint);
            }
            // Open a fresh edge, if a new parent was given.
            match new_parent {
                Some(p) => {
                    b.curr_edges.push(OpenEdge { child: c, parent: p, left: b.last_breakpoint });
                },
                None => {},
            }

            proof {
                assert(b.model() == transplant_one(mpre, c, new_parent, self.cursor()));
                assert(children@.subrange(0, i + 1).drop_last() =~= children@.subrange(
                    0,
                    i as int,
                ));
                assert(children@.subrange(0, i + 1).last() == children@[i as int]);
                assert forall|k: int, q: int|
                    i + 1 <= k < children@.len() && 0 <= q < b.model().open.len() && (
                    #[trigger] b.model().open[q]).child == #[trigger] children@[k]
                        implies b.model().open[q].left < self.cursor() by {
                    if b.model().open[q].child != c {
                        let w = choose|w: int|
                            0 <= w < mpre.open.len() && mpre.open[w] == b.model().open[q];
                        assert(mpre.open[w].left < self.cursor());
                    }
                }
            }
            i = i + 1;
        }
        proof {
            assert(children@.subrange(0, children@.len() as int) =~= children@);
        }
        b
    }

    /// Closes every remaining open edge at `seq_length`, consumes the builder
    /// and returns the finalized, immutable tree sequence. The length must
    /// lie at or beyond the cursor and strictly beyond every open edge's
    /// start. The result keeps the ordering invariant, names no child in two
    /// overlapping edges, and every edge spans a non-empty interval inside
    /// `[0, seq_length)`.
    #[verifier::loop_isolation(false)]
    pub fn end(self, seq_length: u64) -> (ts: TreeSequence)
        requires
            self.wf(),
            seq_length >= self.cursor(),
            forall|j: int|
                0 <= j < self.model().open.len() ==> (#[trigger] self.model().open[j]).left
                    < seq_length,
        ensures
            ts.wf(),
            ts@ == close_seq(self.model(), self.model().open, seq_length).edges,
            ts.node_count() == close_seq(self.model(), self.model().open, seq_length).nodes,
            child_disjoint(ts@),
            forall|i: int|
                0 <= i < ts@.len() ==> (#[trigger] ts@[i]).left < ts@[i].right && ts@[i].right
                    <= seq_length,
    {
        let ghost m0 = self.model();
        let ghost open0 = self.curr_edges@;
        let mut b = self;
        proof {
            lemma_model_wf_monotone(m0, b.last_breakpoint, seq_length);
            assert(open0.subrange(0, 0) =~= Seq::<OpenEdge>::empty());
            assert(open0.subrange(0, open0.len() as int) =~= open0);
        }
        let mut i: usize = 0;
        while i < b.curr_edges.len()
            invariant
                0 <= i <= open0.len(),
                b.curr_edges@ == open0,
                b.ts@ == close_seq(m0, open0.subrange(0, i as int), seq_length).edges,
                b.ts.node_count() == close_seq(m0, open0.subrange(0, i as int), seq_length).nodes,
                model_wf(
                    (BuilderModel {
                        edges: b.ts@,
                        nodes: b.ts.node_count(),
                        open: open0.subrange(i as int, open0.len() as int),
                    }),
                    seq_length,
                ),
            decreases open0.len() - i,
        {
            let ghost mid = BuilderModel {
                edges: b.ts@,
                nodes: b.ts.node_count(),
                open: open0.subrange(i as int, open0.len() as int),
            };
            let o = b.curr_edges[i];
            proof {
                assert(mid.open[0] == o);
                assert(find_open(mid.open, o.child) == 0);
                lemma_transplant_one_wf(mid, o.child, None, seq_length);
                assert(transplant_one(mid, o.child, None, seq_length).open =~= open0.subrange(
                    i + 1,
                    open0.len() as int,
                ));
            }
            b.ts.add_edge(o.child, o.parent, o.left, seq_length);
            proof {
                assert(open0.subrange(0, i + 1).drop_last() =~= open0.subrange(0, i as int));
                assert(open0.subrange(0, i + 1).last() == open0[i as int]);
            }
            i = i + 1;
        }
        b.ts
    }
}

/// The builder invariant only bounds positions from above, so it survives any
/// forward move of the cursor.
proof fn lemma_model_wf_monotone(m: BuilderModel, c1: u64, c2: u64)
    requires
        model_wf(m, c1),
        c1 <= c2,
    ensures
        model_wf(m, c2),
{
}

/// Finalizing a freshly constructed builder yields the empty tree sequence —
/// no edges and no nodes — whatever sequence length it is given.
pub proof fn lemma_end_of_new(seq_length: u64)
    ensures
        close_seq(initial_model(), initial_model().open, seq_length).edges == Seq::<Edge>::empty(),
        close_seq(initial_model(), initial_model().open, seq_length).nodes == 0,
{
}

/// Flat generation: inserting `children` under one parent at the origin and
/// finalizing at `seq_length` yields exactly one edge per child, each spanning
/// the whole of `[0, seq_length)` under that parent.
pub proof fn lemma_flat_generation(children: Seq<NodeId>, parent: NodeId, seq_length: u64)
    ensures
        ({
            let m = close_seq(
                (BuilderModel { edges: Seq::empty(), nodes: 0, open: opened(children, parent, 0) }),
                opened(children, parent, 0),
                seq_length,
            );
            &&& m.edges.len() == children.len()
            &&& forall|i: int|
                0 <= i < m.edges.len() ==> exists|j: int|
                    0 <= j < children.len() && #[trigger] m.edges[i] == (Edge {
                        parent,
                        child: children[j],
                        left: 0,
                        right: seq_length,
                    })
            &&& forall|j: int|
                0 <= j < children.len() ==> m.edges.contains(
                    (Edge { parent, child: #[trigger] children[j], left: 0, right: seq_length }),
                )
        }),
{
    let m0 = BuilderModel { edges: Seq::empty(), nodes: 0, open: opened(children, parent, 0) };
    lemma_flat_close(m0, children, parent, seq_length);
}

/// The induction behind flat generation: closing the opened edges of a child
/// list over an empty edge set inserts exactly one full-length edge per
/// child.
proof fn lemma_flat_close(m: BuilderModel, children: Seq<NodeId>, parent: NodeId, seq_length: u64)
    requires
        m.edges == Seq::<Edge>::empty(),
    ensures
        ({
            let r = close_seq(m, opened(children, parent, 0), seq_length);
            &&& r.edges.len() == children.len()
            &&& forall|i: int|
                0 <= i < r.edges.len() ==> exists|j: int|
                    0 <= j < children.len() && #[trigger] r.edges[i] == (Edge {
                        parent,
                        child: children[j],
                        left: 0,
                        right: seq_length,
                    })
            &&& forall|j: int|
                0 <= j < children.len() ==> r.edges.contains(
                    (Edge { parent, child: #[trigger] children[j], left: 0, right: seq_length }),
                )
        }),
    decreases children.len(),
{
    let open = opened(children, parent, 0);
    if children.len() == 0 {
        assert(open =~= Seq::<OpenEdge>::empty());
    } else {
        let rest = children.drop_last();
        assert(open.drop_last() =~= opened(rest, parent, 0));
        assert(open.last() == (OpenEdge { child: children.last(), parent, left: 0 }));
        lemma_flat_close(m, rest, parent, seq_length);
        let inner = close_seq(m, opened(rest, parent, 0), seq_length);
        let e = Edge { parent, child: children.last(), left: 0, right: seq_length };
        assert(closed_edge(open.last(), seq_length) == e);
        let r = close_seq(m, open, seq_length);
        assert(r.edges == sorted_insert(inner.edges, e));
        lemma_sorted_insert_is_insert(inner.edges, e);
        let pos = choose|pos: int|
            0 <= pos <= inner.edges.len() && sorted_insert(inner.edges, e) == inner.edges.insert(
                pos,
                e,
            );
        inner.edges.insert_ensures(pos, e);
        assert forall|i: int| 0 <= i < r.edges.len() implies exists|j: int|
            0 <= j < children.len() && #[trigger] r.edges[i] == (Edge {
                parent,
                child: children[j],
                left: 0,
                right: seq_length,
            }) by {
            if i == pos {
                assert(r.edges[i] == e);
                assert(children[children.len() - 1] == children.last());
            } else if i < pos {
                assert(r.edges[i] == inner.edges[i]);
            } else {
                assert(r.edges[i] == inner.edges[i - 1]);
            }
        }
        assert forall|j: int| 0 <= j < children.len() implies r.edges.contains(
            (Edge { parent, child: #[trigger] children[j], left: 0, right: seq_length }),
        ) by {
            let f = Edge { parent, child: children[j], left: 0, right: seq_length };
            if j == children.len() - 1 {
                assert(r.edges[pos] == f);
            } else {
                assert(rest[j] == children[j]);
                assert(inner.edges.contains(f));
                let q = choose|q: int| 0 <= q < inner.edges.len() && inner.edges[q] == f;
                if q < pos {
                    assert(r.edges[q] == f);
                } else {
                    assert(r.edges[q + 1] == f);
                }
            }
        }
    }
}

} // verus!
