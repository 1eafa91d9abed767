use tsrust::tree::Tree;
use tsrust::treeseq::TreeSequence;
use tsrust::treeseqbuilder::TreeSequenceBuilder;

#[test]
fn lib_test_parent() {
    let t = Tree::new(vec![None, Some(0), Some(0)]);
    assert_eq!(t.parent(0), None);
    assert_eq!(t.parent(1), Some(0));
    assert_eq!(t.parent(2), Some(0));
}

#[test]
fn lib_test_mrca() {
    let t = Tree::new(vec![None, Some(0), Some(0)]);
    assert_eq!(t.mrca(0, 1), Some(0));
    assert_eq!(t.mrca(0, 2), Some(0));
    assert_eq!(t.mrca(1, 2), Some(0));

    let t2 = Tree::new(vec![None, Some(0), Some(1), Some(2)]);
    assert_eq!(t2.mrca(0, 1), Some(0));
    assert_eq!(t2.mrca(0, 2), Some(0));
    assert_eq!(t2.mrca(0, 3), Some(0));
    assert_eq!(t2.mrca(1, 0), Some(0));
    assert_eq!(t2.mrca(1, 2), Some(1));
    assert_eq!(t2.mrca(1, 3), Some(1));
    assert_eq!(t2.mrca(2, 0), Some(0));
    assert_eq!(t2.mrca(2, 1), Some(1));
    assert_eq!(t2.mrca(2, 3), Some(2));
    assert_eq!(t2.mrca(3, 0), Some(0));
    assert_eq!(t2.mrca(3, 1), Some(1));
    assert_eq!(t2.mrca(3, 2), Some(2));
}

#[test]
fn lib_test_tree_sequence_macro() {
    let mut ts = TreeSequence::new();
    ts.add_edge(1, 0, 0, 1);
    ts.add_edge(2, 0, 0, 1);
    // The literal-construction shorthand, written out: one unit-length edge
    // per `child -> parent` pair.
    let mut lit = TreeSequence::new();
    lit.add_edge(1, 0, 0, 1);
    lit.add_edge(2, 0, 0, 1);
    assert_eq!(lit, ts);

    let ts = TreeSequenceBuilder::new().insert(vec![1, 2], 0).end(1);
    assert_eq!(lit, ts);
}

#[test]
fn lib_test_tree_sequence_builder() {
    let ts = TreeSequenceBuilder::new()
        .insert(vec![0, 1], 4)
        .insert(vec![2, 3], 5)
        .insert(vec![4, 5], 6)
        .breakpoint(1)
        .transplant(vec![0], Some(6))
        .transplant(vec![1], Some(5))
        .breakpoint(2)
        .transplant(vec![0, 5], None)
        .end(3);

    let mut hand_rolled = TreeSequence::new();
    hand_rolled.add_edge(0, 4, 0, 1);
    hand_rolled.add_edge(1, 4, 0, 1);
    hand_rolled.add_edge(2, 5, 0, 3);
    hand_rolled.add_edge(3, 5, 0, 3);
    hand_rolled.add_edge(4, 6, 0, 3);
    hand_rolled.add_edge(5, 6, 0, 2);

    hand_rolled.add_edge(0, 6, 1, 2);
    hand_rolled.add_edge(1, 5, 1, 3);

    assert_eq!(ts, hand_rolled);
}

#[test]
fn lib_test_tree_sequence_builder_empty() {
    assert_eq!(TreeSequence::new(), TreeSequenceBuilder::new().end(1));
}
