use std::cell::Cell;
use tsrust::edge::Edge;
use tsrust::tree::Tree;
use tsrust::treeseq::TreeSequence;
use tsrust::treeseqbuilder::TreeSequenceBuilder;

fn example_ts() -> TreeSequence {
    TreeSequenceBuilder::new()
        .insert(vec![0, 1], 4)
        .insert(vec![2, 3], 5)
        .insert(vec![4, 5], 6)
        .breakpoint(1)
        .transplant(vec![0], Some(6))
        .transplant(vec![1], Some(5))
        .breakpoint(2)
        .transplant(vec![0, 5], None)
        .end(3)
}

fn expected_parents() -> Vec<Vec<Option<usize>>> {
    vec![
        vec![Some(4), Some(4), Some(5), Some(5), Some(6), Some(6), None],
        vec![Some(6), Some(5), Some(5), Some(5), Some(6), Some(6), None],
        vec![None, Some(5), Some(5), Some(5), Some(6), None, None],
    ]
}

#[test]
fn test_streaming_iter_matches_eager_iter() {
    // The eager and the streaming sweep must yield pointwise-identical
    // parent arrays for the canonical scenario.
    let ts = example_ts();
    let expected = expected_parents();

    let mut eager = ts.iter();
    let mut streaming = ts.streaming_iter();
    let mut count = 0;
    loop {
        let t = eager.next();
        streaming.advance();
        match (t, streaming.get()) {
            (None, None) => break,
            (Some(te), Some(tsr)) => {
                assert_eq!(te.parent, tsr.parent);
                assert_eq!(te.parent, expected[count]);
                count += 1;
            }
            _ => panic!("one sweep ended before the other"),
        }
    }
    assert_eq!(count, 3);
}

#[test]
fn test_for_each_with_index() {
    let ts = example_ts();
    let expected = expected_parents();
    let seen = Cell::new(0usize);
    ts.for_each_with_index(|t, tree_index| {
        assert_eq!(t.parent, expected[tree_index]);
        seen.set(seen.get() + 1);
    });
    assert_eq!(seen.get(), 3);
}

#[test]
fn test_ordering_invariant() {
    // Edges come back in ascending (left, parent, child) order however they
    // went in: two insertion orders give equal tree sequences.
    let mut a = TreeSequence::new();
    a.add_edge(0, 4, 0, 1);
    a.add_edge(1, 4, 0, 1);
    a.add_edge(0, 6, 1, 2);
    a.add_edge(5, 6, 0, 2);

    let mut b = TreeSequence::new();
    b.add_edge(0, 6, 1, 2);
    b.add_edge(5, 6, 0, 2);
    b.add_edge(1, 4, 0, 1);
    b.add_edge(0, 4, 0, 1);

    assert_eq!(a, b);
}

#[test]
fn test_edge_order() {
    let a = Edge::new(4, 0, 0, 1);
    let b = Edge::new(4, 1, 0, 1);
    let c = Edge::new(5, 0, 1, 2);
    assert!(a.key_lt(&b));
    assert!(b.key_lt(&c));
    assert!(a.key_lt(&c));
    assert!(!b.key_lt(&a));
    assert!(a.key_eq(&Edge::new(4, 0, 0, 9)));
    assert!(!a.key_eq(&b));
}

#[test]
fn test_flat_generation() {
    // insert([c1..cn], p).end(L) yields exactly n edges (p, ci, 0, L).
    let ts = TreeSequenceBuilder::new().insert(vec![3, 1, 2], 7).end(10);
    let mut hand_rolled = TreeSequence::new();
    hand_rolled.add_edge(1, 7, 0, 10);
    hand_rolled.add_edge(2, 7, 0, 10);
    hand_rolled.add_edge(3, 7, 0, 10);
    assert_eq!(ts, hand_rolled);
}

#[test]
fn test_builder_empty_any_length() {
    // A fresh builder finalizes to the empty tree sequence whatever the
    // length.
    assert_eq!(TreeSequence::new(), TreeSequenceBuilder::new().end(0));
    assert_eq!(TreeSequence::new(), TreeSequenceBuilder::new().end(1000));
}

#[test]
fn test_parent_out_of_bounds_is_root() {
    let t = Tree::new(vec![None, Some(0)]);
    assert_eq!(t.parent(2), None);
    assert_eq!(t.parent(1000), None);
}

#[test]
fn test_mrca_disjoint_roots() {
    let t = Tree::new(vec![None, None]);
    assert_eq!(t.mrca(0, 1), None);
}

#[test]
fn test_mrca_symmetry_and_identity() {
    let t = Tree::new(vec![Some(4), Some(4), Some(5), Some(5), Some(6), Some(6), None]);
    for u in 0..7 {
        assert_eq!(t.mrca(u, u), Some(u));
        for v in 0..7 {
            assert_eq!(t.mrca(u, v), t.mrca(v, u));
        }
    }
    assert_eq!(t.mrca(0, 1), Some(4));
    assert_eq!(t.mrca(0, 2), Some(6));
    assert_eq!(t.mrca(1, 4), Some(4));
}

#[test]
fn test_iter_tree_size_covers_named_nodes() {
    // The node count is one past the largest id any edge names, so every
    // yielded tree has that many entries.
    let mut ts = TreeSequence::new();
    ts.add_edge(0, 6, 0, 1);
    let mut it = ts.iter();
    let t = it.next().unwrap();
    assert_eq!(t.parent.len(), 7);
    assert_eq!(t.parent(0), Some(6));
    assert_eq!(t.parent(6), None);
    assert_eq!(it.next(), None);
}

#[test]
fn test_transplant_without_open_edge_is_noop_close() {
    // Canonical semantics: transplanting a child with no open edge only
    // opens the new edge; nothing is closed.
    let ts = TreeSequenceBuilder::new()
        .insert(vec![0], 2)
        .breakpoint(1)
        .transplant(vec![1], Some(2))
        .end(3);
    let mut hand_rolled = TreeSequence::new();
    hand_rolled.add_edge(0, 2, 0, 3);
    hand_rolled.add_edge(1, 2, 1, 3);
    assert_eq!(ts, hand_rolled);
}

#[test]
fn test_iter_empty_sequence() {
    let ts = TreeSequence::new();
    let mut it = ts.iter();
    assert_eq!(it.next(), None);
    let mut st = ts.streaming_iter();
    st.advance();
    assert!(st.get().is_none());
}
