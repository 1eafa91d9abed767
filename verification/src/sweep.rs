use vstd::prelude::*;
use crate::node::NodeId;
use crate::edge::Edge;
use crate::edge::edges_below;
use crate::edge::edges_sorted;
use crate::edge::child_disjoint;

verus! {

// The mathematical model of one sweep step over a tree sequence's edges.
//
// A sweep keeps an active set `cur` and the not-yet-active edges `up`, the
// latter in reversed key order so that the next arrival sits at its back.
// Each step first evicts from `cur` the batch of edges whose right endpoint
// is the smallest one present, then moves in from `up` the batch of edges
// that share the smallest left endpoint still pending.

/// The smallest right endpoint among the active edges: the next expiry.
pub open spec fn min_right(s: Seq<Edge>) -> u64
    recommends
        s.len() > 0,
    decreases s.len(),
{
    if s.len() <= 1 {
        s[0].right
    } else {
        let m = min_right(s.drop_last());
        if s.last().right < m {
            s.last().right
        } else {
            m
        }
    }
}

/// The active edges that survive an eviction at `m`: those whose right
/// endpoint lies beyond it, in their old order.
pub open spec fn kept_edges(s: Seq<Edge>, m: u64) -> Seq<Edge>
    decreases s.len(),
{
    if s.len() == 0 {
        Seq::empty()
    } else {
        let t = kept_edges(s.drop_last(), m);
        if s.last().right > m {
            t.push(s.last())
        } else {
            t
        }
    }
}

/// The batch of upcoming edges that arrive at `l`: taken from the back of the
/// reversed upcoming list while their left endpoint is at most `l`.
pub open spec fn arrivals(up: Seq<Edge>, l: u64) -> Seq<Edge>
    decreases up.len(),
{
    if up.len() == 0 {
        Seq::empty()
    } else if up.last().left <= l {
        seq![up.last()] + arrivals(up.drop_last(), l)
    } else {
        Seq::empty()
    }
}

/// What is left of the reversed upcoming list once the arrivals at `l` have
/// moved out.
pub open spec fn remaining(up: Seq<Edge>, l: u64) -> Seq<Edge>
    decreases up.len(),
{
    if up.len() == 0 {
        up
    } else if up.last().left <= l {
        remaining(up.drop_last(), l)
    } else {
        up
    }
}

/// The active set after one sweep step: evict the expiring batch, then append
/// the arriving batch.
pub open spec fn step_current(cur: Seq<Edge>, up: Seq<Edge>) -> Seq<Edge> {
    let kept = if cur.len() == 0 {
        cur
    } else {
        kept_edges(cur, min_right(cur))
    };
    if up.len() == 0 {
        kept
    } else {
        kept + arrivals(up, up.last().left)
    }
}

/// The reversed upcoming list after one sweep step.
pub open spec fn step_upcoming(cur: Seq<Edge>, up: Seq<Edge>) -> Seq<Edge> {
    if up.len() == 0 {
        up
    } else {
        remaining(up, up.last().left)
    }
}

/// The parent array of size `n` induced by an active edge set: every node is
/// a root except those named as a child of some active edge, which point at
/// the recorded parent. Later edges overwrite earlier ones; the two never
/// disagree when no child has two simultaneously active edges.
pub open spec fn parents_of(cur: Seq<Edge>, n: nat) -> Seq<Option<NodeId>>
    decreases cur.len(),
{
    if cur.len() == 0 {
        Seq::new(n, |i: int| None)
    } else {
        let p = parents_of(cur.drop_last(), n);
        if cur.last().child < n {
            p.update(cur.last().child as int, Some(cur.last().parent))
        } else {
            p
        }
    }
}

/// An existing parent array after the eviction at `m`: every evicted edge's
/// child is set back to a root.
pub open spec fn cleared(t: Seq<Option<NodeId>>, cur: Seq<Edge>, m: u64) -> Seq<Option<NodeId>>
    decreases cur.len(),
{
    if cur.len() == 0 {
        t
    } else {
        let t1 = cleared(t, cur.drop_last(), m);
        let e = cur.last();
        if e.right == m && e.child < t1.len() {
            t1.update(e.child as int, None)
        } else {
            t1
        }
    }
}

/// An existing parent array after a batch of arrivals: every arriving edge's
/// child points at its recorded parent.
pub open spec fn assigned(t: Seq<Option<NodeId>>, arr: Seq<Edge>) -> Seq<Option<NodeId>>
    decreases arr.len(),
{
    if arr.len() == 0 {
        t
    } else {
        let t1 = assigned(t, arr.drop_last());
        let e = arr.last();
        if e.child < t1.len() {
            t1.update(e.child as int, Some(e.parent))
        } else {
            t1
        }
    }
}

/// A long-lived parent array after one sweep step: evicted children become
/// roots, then arriving children take their parents.
pub open spec fn step_tree(t: Seq<Option<NodeId>>, cur: Seq<Edge>, up: Seq<Edge>) -> Seq<
    Option<NodeId>,
> {
    let t1 = if cur.len() == 0 {
        t
    } else {
        cleared(t, cur, min_right(cur))
    };
    if up.len() == 0 {
        t1
    } else {
        assigned(t1, arrivals(up, up.last().left))
    }
}

/// The minimum is no larger than any active right endpoint.
pub proof fn lemma_min_right_le(s: Seq<Edge>, i: int)
    requires
        0 <= i < s.len(),
    ensures
        min_right(s) <= s[i].right,
    decreases s.len(),
{
    if s.len() > 1 && i < s.len() - 1 {
        lemma_min_right_le(s.drop_last(), i);
    }
}

/// Some active edge attains the minimum right endpoint.
pub proof fn lemma_min_right_exists(s: Seq<Edge>)
    requires
        s.len() > 0,
    ensures
        exists|i: int| 0 <= i < s.len() && (#[trigger] s[i]).right == min_right(s),
    decreases s.len(),
{
    if s.len() == 1 {
        assert(s[0].right == min_right(s));
    } else {
        lemma_min_right_exists(s.drop_last());
        if s.last().right < min_right(s.drop_last()) {
            assert(s[s.len() - 1].right == min_right(s));
        } else {
            let i = choose|i: int|
                0 <= i < s.drop_last().len() && (#[trigger] s.drop_last()[i]).right == min_right(
                    s.drop_last(),
                );
            assert(s[i].right == min_right(s));
        }
    }
}

/// Eviction never keeps an edge that expires, so evicting at the minimum
/// right endpoint strictly shrinks a non-empty active set.
pub proof fn lemma_kept_le(s: Seq<Edge>, m: u64)
    ensures
        kept_edges(s, m).len() <= s.len(),
        (exists|i: int| 0 <= i < s.len() && (#[trigger] s[i]).right <= m) ==> kept_edges(
            s,
            m,
        ).len() < s.len(),
    decreases s.len(),
{
    if s.len() > 0 {
        lemma_kept_le(s.drop_last(), m);
        if exists|i: int| 0 <= i < s.len() && (#[trigger] s[i]).right <= m {
            let i = choose|i: int| 0 <= i < s.len() && (#[trigger] s[i]).right <= m;
            if i < s.len() - 1 {
                assert(s.drop_last()[i].right <= m);
            }
        }
    }
}

/// The arrivals and the remainder split the upcoming list, and a non-empty
/// upcoming list always yields at least one arrival at its own next left
/// endpoint.
pub proof fn lemma_arrivals_split(up: Seq<Edge>, l: u64)
    ensures
        arrivals(up, l).len() + remaining(up, l).len() == up.len(),
        up.len() > 0 && up.last().left <= l ==> arrivals(up, l).len() >= 1,
    decreases up.len(),
{
    if up.len() > 0 && up.last().left <= l {
        lemma_arrivals_split(up.drop_last(), l);
    }
}

/// One sweep step strictly shrinks the measure `|cur| + 2 |up|` unless the
/// sweep is already exhausted: this bounds the number of local trees.
pub proof fn lemma_step_measure(cur: Seq<Edge>, up: Seq<Edge>)
    ensures
        cur.len() + up.len() == 0 ==> step_current(cur, up).len() + step_upcoming(cur, up).len()
            == 0,
        cur.len() + up.len() > 0 ==> step_current(cur, up).len() + 2 * step_upcoming(
            cur,
            up,
        ).len() < cur.len() + 2 * up.len(),
{
    if cur.len() > 0 {
        lemma_min_right_exists(cur);
        lemma_kept_le(cur, min_right(cur));
    }
    if up.len() > 0 {
        lemma_arrivals_split(up, up.last().left);
    }
}

/// Eviction keeps only edges that were active, so a bound on the node ids
/// they name carries over.
pub proof fn lemma_below_kept(s: Seq<Edge>, m: u64, n: int)
    requires
        edges_below(s, n),
    ensures
        edges_below(kept_edges(s, m), n),
    decreases s.len(),
{
    if s.len() > 0 {
        assert(edges_below(s.drop_last(), n)) by {
            assert(forall|i: int| 0 <= i < s.len() - 1 ==> s.drop_last()[i] == s[i]);
        }
        lemma_below_kept(s.drop_last(), m, n);
        let t = kept_edges(s.drop_last(), m);
        if s.last().right > m {
            assert(forall|i: int|
                0 <= i < t.len() + 1 ==> #[trigger] t.push(s.last())[i] == if i < t.len() {
                    t[i]
                } else {
                    s.last()
                });
        }
    }
}

/// Arrivals and the remainder both name only edges of the upcoming list, so a
/// bound on the node ids carries over to them too.
pub proof fn lemma_below_arrivals(up: Seq<Edge>, l: u64, n: int)
    requires
        edges_below(up, n),
    ensures
        edges_below(arrivals(up, l), n),
        edges_below(remaining(up, l), n),
    decreases up.len(),
{
    if up.len() > 0 && up.last().left <= l {
        assert(edges_below(up.drop_last(), n)) by {
            assert(forall|i: int| 0 <= i < up.len() - 1 ==> up.drop_last()[i] == up[i]);
        }
        lemma_below_arrivals(up.drop_last(), l, n);
        let a = arrivals(up.drop_last(), l);
        assert(forall|i: int|
            0 <= i < a.len() + 1 ==> (seq![up.last()] + a)[i] == if i == 0 {
                up.last()
            } else {
                a[i - 1]
            });
    }
}

/// Two active sets bounded by `n` stay bounded when concatenated.
pub proof fn lemma_below_add(a: Seq<Edge>, b: Seq<Edge>, n: int)
    requires
        edges_below(a, n),
        edges_below(b, n),
    ensures
        edges_below(a + b, n),
{
    assert(forall|i: int|
        0 <= i < a.len() + b.len() ==> (a + b)[i] == if i < a.len() {
            a[i]
        } else {
            b[i - a.len()]
        });
}

/// The induced parent array always has exactly `n` entries.
pub proof fn lemma_parents_len(cur: Seq<Edge>, n: nat)
    ensures
        parents_of(cur, n).len() == n,
    decreases cur.len(),
{
    if cur.len() > 0 {
        lemma_parents_len(cur.drop_last(), n);
    }
}

/// Clearing and assigning touch entries in place: the array's length stays.
pub proof fn lemma_cleared_len(t: Seq<Option<NodeId>>, cur: Seq<Edge>, m: u64)
    ensures
        cleared(t, cur, m).len() == t.len(),
    decreases cur.len(),
{
    if cur.len() > 0 {
        lemma_cleared_len(t, cur.drop_last(), m);
    }
}

/// Assigning a batch of arrivals keeps the array's length as well.
pub proof fn lemma_assigned_len(t: Seq<Option<NodeId>>, arr: Seq<Edge>)
    ensures
        assigned(t, arr).len() == t.len(),
    decreases arr.len(),
{
    if arr.len() > 0 {
        lemma_assigned_len(t, arr.drop_last());
    }
}

// What the sweep's states mean on the genome: the active set at a position,
// and the proof that one sweep step carries the state from one maximal
// constant-topology interval to the next.

/// Every edge spans a non-empty interval.
pub open spec fn edges_nonempty(s: Seq<Edge>) -> bool {
    forall|i: int| 0 <= i < s.len() ==> (#[trigger] s[i]).left < s[i].right
}

/// The edges active at genomic position `p`: started at or before it and not
/// yet ended, in their original order.
pub open spec fn active_at(edges: Seq<Edge>, p: int) -> Seq<Edge>
    decreases edges.len(),
{
    if edges.len() == 0 {
        Seq::empty()
    } else if edges[0].left <= p && p < edges[0].right {
        seq![edges[0]] + active_at(edges.drop_first(), p)
    } else {
        active_at(edges.drop_first(), p)
    }
}

/// The edges that start strictly after `p`, reversed (the next one to arrive
/// at the back), exactly as a sweep holds its upcoming list.
pub open spec fn pending_rev(edges: Seq<Edge>, p: int) -> Seq<Edge>
    decreases edges.len(),
{
    if edges.len() == 0 {
        Seq::empty()
    } else if edges[0].left > p {
        pending_rev(edges.drop_first(), p).push(edges[0])
    } else {
        pending_rev(edges.drop_first(), p)
    }
}

/// The genomic position whose boundary events the next sweep step processes:
/// the next arrival's left endpoint, or, with nothing left to arrive, the
/// next expiry.
pub open spec fn next_pos(cur: Seq<Edge>, up: Seq<Edge>) -> u64 {
    if up.len() > 0 {
        up.last().left
    } else {
        min_right(cur)
    }
}

/// Every entry of the active set is active at `p` and comes from the edge
/// list.
proof fn lemma_active_elems(edges: Seq<Edge>, p: int)
    ensures
        forall|k: int|
            0 <= k < active_at(edges, p).len() ==> (#[trigger] active_at(edges, p)[k]).left <= p
                && p < active_at(edges, p)[k].right && exists|i: int|
                0 <= i < edges.len() && edges[i] == active_at(edges, p)[k],
    decreases edges.len(),
{
    if edges.len() > 0 {
        let rest = edges.drop_first();
        lemma_active_elems(rest, p);
        let a = active_at(edges, p);
        assert forall|k: int| 0 <= k < a.len() implies (#[trigger] a[k]).left <= p && p < a[k].right
            && exists|i: int| 0 <= i < edges.len() && edges[i] == a[k] by {
            if edges[0].left <= p && p < edges[0].right {
                if k == 0 {
                    assert(a[k] == edges[0]);
                } else {
                    assert(a[k] == active_at(rest, p)[k - 1]);
                    let i = choose|i: int| 0 <= i < rest.len() && rest[i] == a[k];
                    assert(edges[i + 1] == a[k]);
                }
            } else {
                assert(a[k] == active_at(rest, p)[k]);
                let i = choose|i: int| 0 <= i < rest.len() && rest[i] == a[k];
                assert(edges[i + 1] == a[k]);
            }
        }
    }
}

/// Every edge active at `p` appears in the active set.
proof fn lemma_active_complete(edges: Seq<Edge>, p: int, i: int)
    requires
        0 <= i < edges.len(),
        edges[i].left <= p,
        p < edges[i].right,
    ensures
        exists|k: int| 0 <= k < active_at(edges, p).len() && active_at(edges, p)[k] == edges[i],
    decreases edges.len(),
{
    let rest = edges.drop_first();
    if i == 0 {
        assert(active_at(edges, p)[0] == edges[0]);
    } else {
        assert(rest[i - 1] == edges[i]);
        lemma_active_complete(rest, p, i - 1);
        let k = choose|k: int|
            0 <= k < active_at(rest, p).len() && active_at(rest, p)[k] == edges[i];
        if edges[0].left <= p && p < edges[0].right {
            assert(active_at(edges, p)[k + 1] == edges[i]);
        } else {
            assert(active_at(edges, p)[k] == edges[i]);
        }
    }
}

/// Every entry of the pending list starts after `p` and comes from the edge
/// list.
proof fn lemma_pending_elems(edges: Seq<Edge>, p: int)
    ensures
        forall|k: int|
            0 <= k < pending_rev(edges, p).len() ==> (#[trigger] pending_rev(edges, p)[k]).left > p
                && exists|i: int| 0 <= i < edges.len() && edges[i] == pending_rev(edges, p)[k],
    decreases edges.len(),
{
    if edges.len() > 0 {
        let rest = edges.drop_first();
        lemma_pending_elems(rest, p);
        let w = pending_rev(edges, p);
        assert forall|k: int| 0 <= k < w.len() implies (#[trigger] w[k]).left > p && exists|i: int|
            0 <= i < edges.len() && edges[i] == w[k] by {
            if edges[0].left > p {
                if k == w.len() - 1 {
                    assert(w[k] == edges[0]);
                } else {
                    assert(w[k] == pending_rev(rest, p)[k]);
                    let i = choose|i: int| 0 <= i < rest.len() && rest[i] == w[k];
                    assert(edges[i + 1] == w[k]);
                }
            } else {
                assert(w[k] == pending_rev(rest, p)[k]);
                let i = choose|i: int| 0 <= i < rest.len() && rest[i] == w[k];
                assert(edges[i + 1] == w[k]);
            }
        }
    }
}

/// Every edge starting after `p` appears in the pending list.
proof fn lemma_pending_complete(edges: Seq<Edge>, p: int, i: int)
    requires
        0 <= i < edges.len(),
        edges[i].left > p,
    ensures
        exists|k: int| 0 <= k < pending_rev(edges, p).len() && pending_rev(edges, p)[k] == edges[i],
    decreases edges.len(),
{
    let rest = edges.drop_first();
    if i == 0 {
        assert(pending_rev(edges, p)[pending_rev(edges, p).len() - 1] == edges[0]);
    } else {
        assert(rest[i - 1] == edges[i]);
        lemma_pending_complete(rest, p, i - 1);
        let k = choose|k: int|
            0 <= k < pending_rev(rest, p).len() && pending_rev(rest, p)[k] == edges[i];
        assert(pending_rev(edges, p)[k] == edges[i]);
    }
}

/// With every edge starting after `p`, nothing is active at `p`.
proof fn lemma_active_empty(edges: Seq<Edge>, p: int)
    requires
        forall|i: int| 0 <= i < edges.len() ==> (#[trigger] edges[i]).left > p,
    ensures
        active_at(edges, p) == Seq::<Edge>::empty(),
    decreases edges.len(),
{
    if edges.len() > 0 {
        let rest = edges.drop_first();
        assert(forall|i: int| 0 <= i < rest.len() ==> (#[trigger] rest[i]) == edges[i + 1]);
        lemma_active_empty(rest, p);
    }
}

/// With every edge starting after both positions, the pending lists at the
/// two positions agree.
proof fn lemma_pending_all(edges: Seq<Edge>, a: int, b: int)
    requires
        forall|i: int| 0 <= i < edges.len() ==> (#[trigger] edges[i]).left > a && edges[i].left > b,
    ensures
        pending_rev(edges, a) == pending_rev(edges, b),
    decreases edges.len(),
{
    if edges.len() > 0 {
        let rest = edges.drop_first();
        assert(forall|i: int| 0 <= i < rest.len() ==> (#[trigger] rest[i]) == edges[i + 1]);
        lemma_pending_all(rest, a, b);
    }
}

/// When every edge agrees on being started and being ended at the two
/// positions, the active sets there agree.
proof fn lemma_active_same(edges: Seq<Edge>, p: int, q: int)
    requires
        forall|i: int|
            0 <= i < edges.len() ==> (((#[trigger] edges[i]).left <= p) <==> (edges[i].left <= q))
                && ((p < edges[i].right) <==> (q < edges[i].right)),
    ensures
        active_at(edges, p) == active_at(edges, q),
    decreases edges.len(),
{
    if edges.len() > 0 {
        let rest = edges.drop_first();
        assert(forall|i: int| 0 <= i < rest.len() ==> (#[trigger] rest[i]) == edges[i + 1]);
        lemma_active_same(rest, p, q);
    }
}

/// In a sorted edge list the next pending edge (the pending list's last
/// entry) starts no later than any other pending edge, and strictly after
/// `p`.
proof fn lemma_pending_min(edges: Seq<Edge>, p: int)
    requires
        edges_sorted(edges),
        pending_rev(edges, p).len() > 0,
    ensures
        pending_rev(edges, p).last().left > p,
        forall|i: int|
            0 <= i < edges.len() ==> ((#[trigger] edges[i]).left <= p || edges[i].left
                >= pending_rev(edges, p).last().left),
    decreases edges.len(),
{
    let rest = edges.drop_first();
    if edges[0].left > p {
        assert(pending_rev(edges, p).last() == edges[0]);
        assert forall|i: int| 0 <= i < edges.len() implies ((#[trigger] edges[i]).left <= p
            || edges[i].left >= pending_rev(edges, p).last().left) by {
            if i > 0 {
                assert(crate::edge::edge_key_lt(edges[0], edges[i]));
            }
        }
    } else {
        assert(forall|i: int| 0 <= i < rest.len() ==> (#[trigger] rest[i]) == edges[i + 1]);
        assert(edges_sorted(rest)) by {
            assert(forall|i: int, j: int|
                0 <= i < j < rest.len() ==> crate::edge::edge_key_lt(
                    #[trigger] rest[i],
                    #[trigger] rest[j],
                ));
        }
        lemma_pending_min(rest, p);
        assert forall|i: int| 0 <= i < edges.len() implies ((#[trigger] edges[i]).left <= p
            || edges[i].left >= pending_rev(edges, p).last().left) by {
            if i > 0 {
                assert(rest[i - 1] == edges[i]);
            }
        }
    }
}

/// Splitting one edge off the front of a list splits its surviving part off
/// the front of the eviction's result.
proof fn lemma_kept_front(e: Edge, t: Seq<Edge>, m: u64)
    ensures
        kept_edges(seq![e] + t, m) == (if e.right > m {
            seq![e]
        } else {
            Seq::<Edge>::empty()
        }) + kept_edges(t, m),
    decreases t.len(),
{
    if t.len() == 0 {
        assert((seq![e] + t).drop_last() =~= Seq::<Edge>::empty());
        assert((seq![e] + t).last() == e);
        assert((seq![e] + t).len() == 1);
        assert(kept_edges(Seq::<Edge>::empty(), m) == Seq::<Edge>::empty());
        assert(kept_edges(t, m) == Seq::<Edge>::empty());
        if e.right > m {
            assert(kept_edges(seq![e] + t, m) == kept_edges(Seq::<Edge>::empty(), m).push(e));
            assert(Seq::<Edge>::empty().push(e) =~= seq![e] + kept_edges(t, m));
        } else {
            assert(kept_edges(seq![e] + t, m) == kept_edges(Seq::<Edge>::empty(), m));
            assert(Seq::<Edge>::empty() =~= Seq::<Edge>::empty() + kept_edges(t, m));
        }
    } else {
        let t1 = t.drop_last();
        lemma_kept_front(e, t1, m);
        assert((seq![e] + t).drop_last() =~= seq![e] + t1);
        assert((seq![e] + t).last() == t.last());
        if t.last().right > m {
            assert(kept_edges(seq![e] + t, m) == kept_edges(seq![e] + t1, m).push(t.last()));
            assert(((if e.right > m {
                seq![e]
            } else {
                Seq::<Edge>::empty()
            }) + kept_edges(t1, m)).push(t.last()) =~= (if e.right > m {
                seq![e]
            } else {
                Seq::<Edge>::empty()
            }) + kept_edges(t1, m).push(t.last()));
        }
    }
}

/// The heart of the partition invariant, one step: evicting at `l` and
/// letting the edges that start at `l` arrive turns the active set at `p`
/// into the active set at `l`, and leaves exactly the edges starting after
/// `l` pending — provided no edge starts strictly inside `(p, l)`.
proof fn lemma_step_active(edges: Seq<Edge>, p: int, l: u64)
    requires
        edges_sorted(edges),
        edges_nonempty(edges),
        p < l,
        forall|i: int|
            0 <= i < edges.len() ==> ((#[trigger] edges[i]).left <= p || edges[i].left >= l),
    ensures
        kept_edges(active_at(edges, p), l) + arrivals(pending_rev(edges, p), l) == active_at(
            edges,
            l as int,
        ),
        remaining(pending_rev(edges, p), l) == pending_rev(edges, l as int),
    decreases edges.len(),
{
    if edges.len() == 0 {
        assert(kept_edges(active_at(edges, p), l) + arrivals(pending_rev(edges, p), l)
            =~= Seq::<Edge>::empty());
    } else {
        let e = edges[0];
        let rest = edges.drop_first();
        assert(forall|i: int| 0 <= i < rest.len() ==> (#[trigger] rest[i]) == edges[i + 1]);
        assert(edges_sorted(rest)) by {
            assert(forall|i: int, j: int|
                0 <= i < j < rest.len() ==> crate::edge::edge_key_lt(
                    #[trigger] rest[i],
                    #[trigger] rest[j],
                ));
        }
        lemma_step_active(rest, p, l);
        if e.left <= p && p < e.right {
            assert(active_at(edges, p) == seq![e] + active_at(rest, p));
            assert(pending_rev(edges, p) == pending_rev(rest, p));
            lemma_kept_front(e, active_at(rest, p), l);
            if e.right > l {
                assert(active_at(edges, l as int) == seq![e] + active_at(rest, l as int));
                assert((seq![e] + kept_edges(active_at(rest, p), l)) + arrivals(
                    pending_rev(rest, p),
                    l,
                ) =~= seq![e] + (kept_edges(active_at(rest, p), l) + arrivals(
                    pending_rev(rest, p),
                    l,
                )));
                assert(kept_edges(active_at(edges, p), l) =~= seq![e] + kept_edges(
                    active_at(rest, p),
                    l,
                ));
            } else {
                assert(active_at(edges, l as int) == active_at(rest, l as int));
                assert(kept_edges(active_at(edges, p), l) =~= Seq::<Edge>::empty() + kept_edges(
                    active_at(rest, p),
                    l,
                ));
                assert(Seq::<Edge>::empty() + kept_edges(active_at(rest, p), l) =~= kept_edges(
                    active_at(rest, p),
                    l,
                ));
            }
        } else if e.left <= p {
            assert(e.right <= p);
            assert(active_at(edges, p) == active_at(rest, p));
            assert(pending_rev(edges, p) == pending_rev(rest, p));
            assert(active_at(edges, l as int) == active_at(rest, l as int));
            assert(pending_rev(edges, l as int) == pending_rev(rest, l as int));
        } else {
            // The first — hence smallest-keyed — edge starts after `p`, so
            // every edge does, and nothing is active at `p`.
            assert(e.left >= l);
            assert forall|i: int| 0 <= i < rest.len() implies (#[trigger] rest[i]).left > p by {
                assert(crate::edge::edge_key_lt(e, rest[i]));
            }
            lemma_active_empty(edges, p);
            lemma_active_empty(rest, p);
            assert(kept_edges(active_at(edges, p), l) =~= Seq::<Edge>::empty());
            assert(kept_edges(active_at(rest, p), l) =~= Seq::<Edge>::empty());
            assert(Seq::<Edge>::empty() + arrivals(pending_rev(rest, p), l) =~= arrivals(
                pending_rev(rest, p),
                l,
            ));
            assert(pending_rev(edges, p) == pending_rev(rest, p).push(e));
            assert(pending_rev(edges, p).drop_last() =~= pending_rev(rest, p));
            if e.left == l {
                assert(arrivals(pending_rev(edges, p), l) == seq![e] + arrivals(
                    pending_rev(rest, p),
                    l,
                ));
                assert(l < e.right);
                assert(active_at(edges, l as int) == seq![e] + active_at(rest, l as int));
                assert(kept_edges(active_at(edges, p), l) + (seq![e] + arrivals(
                    pending_rev(rest, p),
                    l,
                )) =~= seq![e] + arrivals(pending_rev(rest, p), l));
                assert(remaining(pending_rev(edges, p), l) == remaining(pending_rev(rest, p), l));
                assert(pending_rev(edges, l as int) == pending_rev(rest, l as int));
            } else {
                assert(e.left > l);
                assert forall|i: int| 0 <= i < rest.len() implies (#[trigger] rest[i]).left
                    > l by {
                    assert(crate::edge::edge_key_lt(e, rest[i]));
                }
                assert(arrivals(pending_rev(edges, p), l) == Seq::<Edge>::empty());
                lemma_active_empty(rest, l as int);
                assert(active_at(edges, l as int) == active_at(rest, l as int));
                assert(kept_edges(active_at(edges, p), l) + arrivals(pending_rev(edges, p), l)
                    =~= Seq::<Edge>::empty());
                assert(remaining(pending_rev(edges, p), l) == pending_rev(edges, p));
                lemma_pending_all(rest, p, l as int);
                assert(pending_rev(edges, l as int) == pending_rev(rest, l as int).push(e));
            }
        }
    }
}

/// The partition invariant, one sweep step. Read `cur` as the active set of
/// the maximal constant-topology interval beginning at `p` and `up` as what
/// has not arrived yet. One step moves the sweep to a strictly later
/// position `next_pos(cur, up)` — so intervals neither overlap nor repeat —
/// and, since no edge starts or ends strictly between the two positions, the
/// topology is constant on `[p, next_pos)`: the yielded intervals abut with
/// no gap. The new state again holds exactly the edges active at, and those
/// starting after, the new position; once both sets run out, every edge has
/// ended by the final position, so the intervals together cover everything up
/// to the largest right endpoint. It asks that the expiries the step evicts
/// sit exactly at the next arrival (`aligned`); a sweep over edges that break
/// that — say one edge over `[0, 2)` and another, for a second child, over
/// `[1, 2)` with nothing ending at `1` — conflates two intervals, and the
/// invariant does not hold of it.
pub proof fn lemma_sweep_step_partition(edges: Seq<Edge>, p: int, cur: Seq<Edge>, up: Seq<Edge>)
    requires
        edges_sorted(edges),
        edges_nonempty(edges),
        cur == active_at(edges, p),
        up == pending_rev(edges, p),
        cur.len() + up.len() > 0,
        cur.len() > 0 && up.len() > 0 ==> min_right(cur) == up.last().left,
    ensures
        p < next_pos(cur, up),
        step_current(cur, up) == active_at(edges, next_pos(cur, up) as int),
        step_upcoming(cur, up) == pending_rev(edges, next_pos(cur, up) as int),
        forall|q: int|
            p <= q < next_pos(cur, up) ==> active_at(edges, q) == active_at(edges, p),
        step_current(cur, up).len() == 0 && step_upcoming(cur, up).len() == 0 ==> forall|i: int|
            0 <= i < edges.len() ==> (#[trigger] edges[i]).right <= next_pos(cur, up),
{
    let pn = next_pos(cur, up);
    lemma_active_elems(edges, p);
    if up.len() > 0 {
        lemma_pending_min(edges, p);
        assert(p < pn);
    } else {
        lemma_min_right_exists(cur);
        let k = choose|k: int| 0 <= k < cur.len() && cur[k].right == min_right(cur);
        assert(p < cur[k].right);
        assert(p < pn);
        assert forall|i: int| 0 <= i < edges.len() implies (#[trigger] edges[i]).left <= p by {
            if edges[i].left > p {
                lemma_pending_complete(edges, p, i);
            }
        }
    }
    // No edge starts strictly inside (p, pn).
    assert forall|i: int| 0 <= i < edges.len() implies ((#[trigger] edges[i]).left <= p
        || edges[i].left >= pn) by {}
    lemma_step_active(edges, p, pn);

    // The step computes exactly the eviction at pn plus the arrivals at pn.
    if cur.len() > 0 {
        assert(min_right(cur) == pn);
        if up.len() > 0 {
            assert(step_current(cur, up) == kept_edges(cur, min_right(cur)) + arrivals(up, pn));
        } else {
            assert(arrivals(up, pn) == Seq::<Edge>::empty());
            assert(step_current(cur, up) == kept_edges(cur, pn));
            assert(kept_edges(cur, pn) =~= kept_edges(cur, pn) + arrivals(up, pn));
            assert(step_upcoming(cur, up) == up);
            assert(remaining(up, pn) == up);
        }
    } else {
        assert(kept_edges(cur, pn) =~= Seq::<Edge>::empty());
        assert(step_current(cur, up) == cur + arrivals(up, pn));
        assert(cur + arrivals(up, pn) =~= kept_edges(cur, pn) + arrivals(up, pn));
    }
    assert(step_current(cur, up) == active_at(edges, pn as int));
    assert(step_upcoming(cur, up) == pending_rev(edges, pn as int));

    // Between p and pn no edge starts and no active edge ends, so the
    // topology is constant there.
    assert forall|q: int| p <= q < pn implies active_at(edges, q) == active_at(edges, p) by {
        assert forall|i: int| 0 <= i < edges.len() implies (((#[trigger] edges[i]).left <= p) <==> (
        edges[i].left <= q)) && ((p < edges[i].right) <==> (q < edges[i].right)) by {
            if edges[i].left <= p && p < edges[i].right {
                lemma_active_complete(edges, p, i);
                let k = choose|k: int| 0 <= k < cur.len() && cur[k] == edges[i];
                lemma_min_right_le(cur, k);
                if up.len() > 0 && cur.len() > 0 {
                    assert(min_right(cur) == pn);
                }
                assert(edges[i].right >= pn);
            }
            if edges[i].left <= p && edges[i].right <= p {
                assert(edges[i].right <= q);
            }
            if edges[i].left > p {
                assert(edges[i].left >= pn);
            }
        }
        lemma_active_same(edges, q, p);
    }

    // Exhaustion: with nothing active and nothing pending at pn, every edge
    // has ended by pn.
    if step_current(cur, up).len() == 0 && step_upcoming(cur, up).len() == 0 {
        assert forall|i: int| 0 <= i < edges.len() implies (#[trigger] edges[i]).right <= pn by {
            if edges[i].left > pn {
                lemma_pending_complete(edges, pn as int, i);
            } else if edges[i].right > pn {
                lemma_active_complete(edges, pn as int, i);
            }
        }
    }
}

/// Where a sweep starts: nothing active, everything pending, exactly the
/// reversed edge list.
pub proof fn lemma_sweep_start(edges: Seq<Edge>)
    ensures
        active_at(edges, -1) == Seq::<Edge>::empty(),
        pending_rev(edges, -1) == edges.reverse(),
    decreases edges.len(),
{
    if edges.len() == 0 {
        assert(edges.reverse() =~= Seq::<Edge>::empty());
    } else {
        let rest = edges.drop_first();
        lemma_sweep_start(rest);
        assert(active_at(edges, -1) == active_at(rest, -1));
        assert(pending_rev(edges, -1) == rest.reverse().push(edges[0]));
        assert(rest.reverse().push(edges[0]) =~= edges.reverse());
    }
}

/// In an edge set where no child has two overlapping edges, no child has two
/// simultaneously active edges.
pub proof fn lemma_active_children_distinct(edges: Seq<Edge>, p: int)
    requires
        child_disjoint(edges),
    ensures
        forall|a: int, b: int|
            0 <= a < b < active_at(edges, p).len() ==> (#[trigger] active_at(edges, p)[a]).child
                != (#[trigger] active_at(edges, p)[b]).child,
    decreases edges.len(),
{
    if edges.len() > 0 {
        let rest = edges.drop_first();
        assert(forall|i: int| 0 <= i < rest.len() ==> (#[trigger] rest[i]) == edges[i + 1]);
        assert(child_disjoint(rest)) by {
            assert(forall|i: int, j: int|
                0 <= i < j < rest.len() && (#[trigger] rest[i]).child == (#[trigger] rest[j]).child
                    ==> (rest[i].right <= rest[j].left || rest[j].right <= rest[i].left));
        }
        lemma_active_children_distinct(rest, p);
        lemma_active_elems(rest, p);
        let a0 = active_at(edges, p);
        if edges[0].left <= p && p < edges[0].right {
            assert forall|a: int, b: int| 0 <= a < b < a0.len() implies (#[trigger] a0[a]).child
                != (#[trigger] a0[b]).child by {
                if a == 0 {
                    assert(a0[b] == active_at(rest, p)[b - 1]);
                    if a0[b].child == edges[0].child {
                        let i = choose|i: int| 0 <= i < rest.len() && rest[i] == a0[b];
                        assert(edges[i + 1] == a0[b]);
                        assert(edges[0].right <= edges[i + 1].left || edges[i + 1].right
                            <= edges[0].left);
                    }
                } else {
                    assert(a0[a] == active_at(rest, p)[a - 1]);
                    assert(a0[b] == active_at(rest, p)[b - 1]);
                }
            }
        }
    }
}

/// Every survivor of an eviction ends beyond `m` and was active before it.
proof fn lemma_kept_elems(s: Seq<Edge>, m: u64)
    ensures
        forall|k: int|
            0 <= k < kept_edges(s, m).len() ==> (#[trigger] kept_edges(s, m)[k]).right > m
                && exists|i: int| 0 <= i < s.len() && s[i] == kept_edges(s, m)[k],
    decreases s.len(),
{
    if s.len() > 0 {
        let t0 = s.drop_last();
        lemma_kept_elems(t0, m);
        let t = kept_edges(t0, m);
        let r = kept_edges(s, m);
        assert forall|k: int| 0 <= k < r.len() implies (#[trigger] r[k]).right > m && exists|i: int|
            0 <= i < s.len() && s[i] == r[k] by {
            if s.last().right > m && k == r.len() - 1 {
                assert(r[k] == s[s.len() - 1]);
            } else {
                assert(r[k] == t[k]);
                let i = choose|i: int| 0 <= i < t0.len() && t0[i] == t[k];
                assert(s[i] == r[k]);
            }
        }
    }
}

/// Every active edge that ends beyond `m` survives the eviction at `m`.
proof fn lemma_kept_complete(s: Seq<Edge>, m: u64, i: int)
    requires
        0 <= i < s.len(),
        s[i].right > m,
    ensures
        exists|k: int| 0 <= k < kept_edges(s, m).len() && kept_edges(s, m)[k] == s[i],
    decreases s.len(),
{
    let t0 = s.drop_last();
    if i == s.len() - 1 {
        assert(kept_edges(s, m)[kept_edges(t0, m).len() as int] == s[i]);
    } else {
        assert(t0[i] == s[i]);
        lemma_kept_complete(t0, m, i);
        let k = choose|k: int| 0 <= k < kept_edges(t0, m).len() && kept_edges(t0, m)[k] == s[i];
        assert(kept_edges(s, m)[k] == s[i]);
    }
}

/// Eviction keeps the active set's children distinct.
proof fn lemma_kept_distinct(s: Seq<Edge>, m: u64)
    requires
        forall|a: int, b: int|
            0 <= a < b < s.len() ==> (#[trigger] s[a]).child != (#[trigger] s[b]).child,
    ensures
        forall|a: int, b: int|
            0 <= a < b < kept_edges(s, m).len() ==> (#[trigger] kept_edges(s, m)[a]).child != (
            #[trigger] kept_edges(s, m)[b]).child,
    decreases s.len(),
{
    if s.len() > 0 {
        let t0 = s.drop_last();
        assert(forall|i: int| 0 <= i < t0.len() ==> (#[trigger] t0[i]) == s[i]);
        lemma_kept_distinct(t0, m);
        lemma_kept_elems(t0, m);
        let t = kept_edges(t0, m);
        let r = kept_edges(s, m);
        assert forall|a: int, b: int| 0 <= a < b < r.len() implies (#[trigger] r[a]).child != (
        #[trigger] r[b]).child by {
            if s.last().right > m && b == r.len() - 1 {
                assert(r[a] == t[a]);
                assert(r[b] == s[s.len() - 1]);
                let i = choose|i: int| 0 <= i < t0.len() && t0[i] == t[a];
                assert(s[i].child != s[s.len() - 1].child);
            } else {
                assert(r[a] == t[a] && r[b] == t[b]);
            }
        }
    }
}

/// What clearing at `m` does to each entry: the children of edges ending at
/// `m` become roots, and nothing else moves.
proof fn lemma_cleared_reads(t: Seq<Option<NodeId>>, cur: Seq<Edge>, m: u64)
    ensures
        cleared(t, cur, m).len() == t.len(),
        forall|k: int|
            0 <= k < cur.len() && (#[trigger] cur[k]).right == m && cur[k].child < t.len()
                ==> cleared(t, cur, m)[cur[k].child as int] is None,
        forall|u: int|
            0 <= u < t.len() && (#[trigger] cleared(t, cur, m)[u]) != t[u] ==> cleared(
                t,
                cur,
                m,
            )[u] is None && exists|k: int|
                0 <= k < cur.len() && cur[k].right == m && cur[k].child == u,
    decreases cur.len(),
{
    lemma_cleared_len(t, cur, m);
    if cur.len() > 0 {
        let c0 = cur.drop_last();
        let e = cur.last();
        assert(forall|i: int| 0 <= i < c0.len() ==> (#[trigger] c0[i]) == cur[i]);
        lemma_cleared_reads(t, cur.drop_last(), m);
        lemma_cleared_len(t, c0, m);
        let t1 = cleared(t, c0, m);
        let r = cleared(t, cur, m);
        assert forall|k: int|
            0 <= k < cur.len() && (#[trigger] cur[k]).right == m && cur[k].child
                < t.len() implies r[cur[k].child as int] is None by {
            if k < cur.len() - 1 {
                assert(c0[k] == cur[k]);
                assert(t1[cur[k].child as int] is None);
            }
        }
        assert forall|u: int|
            0 <= u < t.len() && (#[trigger] r[u]) != t[u] implies r[u] is None && exists|k: int|
            0 <= k < cur.len() && cur[k].right == m && cur[k].child == u by {
            if e.right == m && e.child < t1.len() && u == e.child {
                assert(cur[cur.len() - 1].right == m && cur[cur.len() - 1].child == u);
            } else {
                assert(r[u] == t1[u]);
                let k = choose|k: int|
                    0 <= k < c0.len() && c0[k].right == m && c0[k].child == u;
                assert(cur[k].right == m && cur[k].child == u);
            }
        }
    }
}

/// Building the parent array of a concatenation is building the first part's
/// array and then assigning the second part over it.
proof fn lemma_parents_append(a: Seq<Edge>, b: Seq<Edge>, n: nat)
    ensures
        parents_of(a + b, n) == assigned(parents_of(a, n), b),
    decreases b.len(),
{
    lemma_parents_len(a, n);
    if b.len() == 0 {
        assert(a + b =~= a);
        assert(parents_of(a + b, n) == parents_of(a, n));
    } else {
        let b0 = b.drop_last();
        let x = b.last();
        lemma_parents_append(a, b0, n);
        lemma_parents_len(a + b0, n);
        lemma_assigned_len(parents_of(a, n), b0);
        assert((a + b).drop_last() =~= a + b0);
        assert((a + b).last() == x);
        assert(b0.push(x) =~= b);
    }
}

/// The streaming sweep tracks the eager one: if the long-lived parent array
/// matches the active set, it still matches after a step, for any active set
/// that names each child at most once. So, over a tree sequence in which no
/// child has two overlapping edges, the two sweeps yield pointwise-identical
/// parent arrays.
pub proof fn lemma_step_tree_matches(
    t: Seq<Option<NodeId>>,
    cur: Seq<Edge>,
    up: Seq<Edge>,
    n: nat,
)
    requires
        t == parents_of(cur, n),
        forall|a: int, b: int|
            0 <= a < b < cur.len() ==> (#[trigger] cur[a]).child != (#[trigger] cur[b]).child,
    ensures
        step_tree(t, cur, up) == parents_of(step_current(cur, up), n),
{
    lemma_parents_len(cur, n);
    let kept_full = if cur.len() == 0 {
        cur
    } else {
        kept_edges(cur, min_right(cur))
    };
    let t1 = if cur.len() == 0 {
        t
    } else {
        cleared(t, cur, min_right(cur))
    };
    if cur.len() > 0 {
        let m = min_right(cur);
        lemma_cleared_reads(t, cur, m);
        lemma_kept_elems(cur, m);
        lemma_kept_distinct(cur, m);
        lemma_parents_of_reads(cur, n);
        lemma_parents_of_reads(kept_full, n);
        lemma_parents_len(kept_full, n);
        assert forall|u: int| 0 <= u < n implies t1[u] == parents_of(kept_full, n)[u] by {
            if t1[u] != t[u] {
                // The entry was cleared: its child's single edge ends at m,
                // so it does not survive, and the child is a root afterwards.
                assert(t1[u] is None);
                let k = choose|k: int|
                    0 <= k < cur.len() && cur[k].right == m && cur[k].child == u;
                if parents_of(kept_full, n)[u] is Some {
                    let w = choose|w: int|
                        0 <= w < kept_full.len() && kept_full[w].child == u && parents_of(
                            kept_full,
                            n,
                        )[u] == Some(kept_full[w].parent);
                    let i = choose|i: int| 0 <= i < cur.len() && cur[i] == kept_full[w];
                    assert(cur[i].right > m && cur[i].child == u);
                    assert(i == k);
                }
            } else {
                if exists|k: int| 0 <= k < cur.len() && (#[trigger] cur[k]).child == u {
                    let k = choose|k: int| 0 <= k < cur.len() && (#[trigger] cur[k]).child == u;
                    lemma_min_right_le(cur, k);
                    if cur[k].right == m {
                        // Its entry would have been cleared, so this case
                        // contradicts the entry being unchanged.
                        assert(t[u] == Some(cur[k].parent));
                        assert(t1[u] is None);
                    } else {
                        assert(cur[k].right > m);
                        lemma_kept_complete(cur, m, k);
                        let w = choose|w: int|
                            0 <= w < kept_full.len() && kept_full[w] == cur[k];
                        assert(parents_of(kept_full, n)[u] == Some(kept_full[w].parent));
                        assert(t[u] == Some(cur[k].parent));
                    }
                } else {
                    // No active edge names u, before or after the eviction.
                    if t[u] is Some {
                        let k = choose|k: int|
                            0 <= k < cur.len() && cur[k].child == u && t[u] == Some(
                                cur[k].parent,
                            );
                    }
                    assert(t[u] is None);
                    if parents_of(kept_full, n)[u] is Some {
                        let w = choose|w: int|
                            0 <= w < kept_full.len() && kept_full[w].child == u && parents_of(
                                kept_full,
                                n,
                            )[u] == Some(kept_full[w].parent);
                        let i = choose|i: int| 0 <= i < cur.len() && cur[i] == kept_full[w];
                        assert(cur[i].child == u);
                    }
                }
            }
        }
        assert(t1 =~= parents_of(kept_full, n));
    } else {
        assert(kept_full =~= Seq::<Edge>::empty());
        assert(t1 == parents_of(kept_full, n));
    }
    if up.len() == 0 {
        assert(step_tree(t, cur, up) == t1);
        assert(step_current(cur, up) == kept_full);
    } else {
        let arr = arrivals(up, up.last().left);
        lemma_parents_append(kept_full, arr, n);
        assert(step_tree(t, cur, up) == assigned(t1, arr));
        assert(step_current(cur, up) == kept_full + arr);
    }
}

/// For an active set that names each child at most once, the induced parent
/// array reads back exactly the active edges: each active child points at its
/// recorded parent, and every other node is a root.
pub proof fn lemma_parents_of_reads(cur: Seq<Edge>, n: nat)
    requires
        forall|a: int, b: int|
            0 <= a < b < cur.len() ==> (#[trigger] cur[a]).child != (#[trigger] cur[b]).child,
    ensures
        parents_of(cur, n).len() == n,
        forall|k: int|
            0 <= k < cur.len() && (#[trigger] cur[k]).child < n ==> parents_of(cur, n)[cur[k].child
                as int] == Some(cur[k].parent),
        forall|u: int|
            0 <= u < n && (#[trigger] parents_of(cur, n)[u]) is Some ==> exists|k: int|
                0 <= k < cur.len() && cur[k].child == u && parents_of(cur, n)[u] == Some(
                    cur[k].parent,
                ),
    decreases cur.len(),
{
    lemma_parents_len(cur, n);
    if cur.len() > 0 {
        let t = cur.drop_last();
        let e = cur.last();
        assert(forall|i: int| 0 <= i < t.len() ==> (#[trigger] t[i]) == cur[i]);
        lemma_parents_of_reads(t, n);
        lemma_parents_len(t, n);
        let pp = parents_of(t, n);
        let r = parents_of(cur, n);
        assert forall|k: int| 0 <= k < cur.len() && (#[trigger] cur[k]).child < n implies r[cur[k].child
            as int] == Some(cur[k].parent) by {
            if k == cur.len() - 1 {
            } else {
                assert(t[k] == cur[k]);
                assert(cur[k].child != e.child);
                assert(pp[cur[k].child as int] == Some(cur[k].parent));
            }
        }
        assert forall|u: int| 0 <= u < n && (#[trigger] r[u]) is Some implies exists|k: int|
            0 <= k < cur.len() && cur[k].child == u && r[u] == Some(cur[k].parent) by {
            if e.child < n && u == e.child {
                assert(cur[cur.len() - 1].child == u && r[u] == Some(cur[cur.len() - 1].parent));
            } else {
                assert(r[u] == pp[u]);
                let k = choose|k: int| 0 <= k < t.len() && t[k].child == u && pp[u] == Some(
                    t[k].parent,
                );
                assert(cur[k].child == u && r[u] == Some(cur[k].parent));
            }
        }
    }
}


/// The sweep's state after `k` steps, starting from nothing active and every
/// edge pending.
pub open spec fn sweep_state(edges: Seq<Edge>, k: nat) -> (Seq<Edge>, Seq<Edge>)
    decreases k,
{
    if k == 0 {
        (Seq::empty(), edges.reverse())
    } else {
        let s = sweep_state(edges, (k - 1) as nat);
        (step_current(s.0, s.1), step_upcoming(s.0, s.1))
    }
}

/// The genomic position the sweep has reached after `k` steps; before the
/// first step it sits before every coordinate.
pub open spec fn sweep_pos(edges: Seq<Edge>, k: nat) -> int {
    if k == 0 {
        -1
    } else {
        let s = sweep_state(edges, (k - 1) as nat);
        next_pos(s.0, s.1) as int
    }
}

/// The sweep still has a tree to yield after `k` steps.
pub open spec fn sweep_live(edges: Seq<Edge>, k: nat) -> bool {
    let s = sweep_state(edges, k);
    s.0.len() + s.1.len() > 0
}

/// At state `k` the expiries the next step evicts sit exactly at the next
/// arrival, whenever both kinds of event remain.
pub open spec fn sweep_aligned_at(edges: Seq<Edge>, k: nat) -> bool {
    let s = sweep_state(edges, k);
    s.0.len() > 0 && s.1.len() > 0 ==> min_right(s.0) == s.1.last().left
}

/// The partition invariant over a whole sweep: as long as every step so far
/// was live and aligned, after `k` steps the sweep holds exactly the edges
/// active at its position and exactly the edges starting later, its positions
/// strictly increase step by step, and once it runs out every edge has ended
/// by the final position. With `lemma_sweep_step_partition` giving constant
/// topology between neighbouring positions, the yielded trees' intervals
/// partition the genome from the first edge's start to the last edge's end
/// with no gap and no overlap.
pub proof fn lemma_sweep_trace(edges: Seq<Edge>, k: nat)
    requires
        edges_sorted(edges),
        edges_nonempty(edges),
        forall|j: nat|
            j < k ==> #[trigger] sweep_live(edges, j) && sweep_aligned_at(edges, j),
    ensures
        sweep_state(edges, k).0 == active_at(edges, sweep_pos(edges, k)),
        sweep_state(edges, k).1 == pending_rev(edges, sweep_pos(edges, k)),
        k >= 1 ==> sweep_pos(edges, (k - 1) as nat) < sweep_pos(edges, k),
        k >= 1 && sweep_state(edges, k).0.len() + sweep_state(edges, k).1.len() == 0
            ==> forall|i: int|
            0 <= i < edges.len() ==> (#[trigger] edges[i]).right <= sweep_pos(edges, k),
    decreases k,
{
    if k == 0 {
        lemma_sweep_start(edges);
    } else {
        lemma_sweep_trace(edges, (k - 1) as nat);
        let s = sweep_state(edges, (k - 1) as nat);
        assert(sweep_live(edges, (k - 1) as nat) && sweep_aligned_at(edges, (k - 1) as nat));
        lemma_sweep_step_partition(edges, sweep_pos(edges, (k - 1) as nat), s.0, s.1);
    }
}

} // verus!
