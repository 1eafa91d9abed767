use tsrust::tree::Tree;
use tsrust::treeseq::TreeSequence;
use tsrust::treeseqbuilder::TreeSequenceBuilder;

fn example_ts() -> TreeSequence {
    TreeSequenceBuilder::new()
        .insert(vec![0, 1], 4)
        .insert(vec![2, 3], 5)
        .insert(vec![4, 5], 6)
        .breakpoint(1)
        .transplant(vec![0], Some(6))
        .transplant(vec![1], Some(5))
        .breakpoint(2)
        .transplant(vec![0, 5], None)
        .end(3)
}

#[test]
fn treeseqbuilder_test_tree_sequence_builder() {
    let mut hand_rolled = TreeSequence::new();
    hand_rolled.add_edge(0, 4, 0, 1);
    hand_rolled.add_edge(1, 4, 0, 1);
    hand_rolled.add_edge(2, 5, 0, 3);
    hand_rolled.add_edge(3, 5, 0, 3);
    hand_rolled.add_edge(4, 6, 0, 3);
    hand_rolled.add_edge(5, 6, 0, 2);

    hand_rolled.add_edge(0, 6, 1, 2);
    hand_rolled.add_edge(1, 5, 1, 3);

    assert_eq!(example_ts(), hand_rolled);
}

#[test]
fn treeseqbuilder_test_tree_sequence_builder_empty() {
    assert_eq!(TreeSequence::new(), TreeSequenceBuilder::new().end(1));
}

#[test]
fn treeseqbuilder_test_tree_sequence_macro() {
    let mut ts = TreeSequence::new();
    ts.add_edge(1, 0, 0, 1);
    ts.add_edge(2, 0, 0, 1);
    // The literal-construction shorthand, written out: one unit-length edge
    // per `child -> parent` pair.
    let mut lit = TreeSequence::new();
    lit.add_edge(1, 0, 0, 1);
    lit.add_edge(2, 0, 0, 1);
    assert_eq!(lit, ts);

    let ts = TreeSequenceBuilder::new().insert(vec![1, 2], 0).end(1);
    assert_eq!(lit, ts);
}

#[test]
fn test_tree_sequence_iter() {
    let ts = example_ts();
    let mut ts_iter = ts.iter();

    let t1 = Tree::new(vec![
        Some(4),
        Some(4),
        Some(5),
        Some(5),
        Some(6),
        Some(6),
        None,
    ]);
    assert_eq!(ts_iter.next(), Some(t1));

    let t2 = Tree::new(vec![
        Some(6),
        Some(5),
        Some(5),
        Some(5),
        Some(6),
        Some(6),
        None,
    ]);
    assert_eq!(ts_iter.next(), Some(t2));

    let t2 = Tree::new(vec![None, Some(5), Some(5), Some(5), Some(6), None, None]);
    assert_eq!(ts_iter.next(), Some(t2));

    assert_eq!(ts_iter.next(), None);
}
