use tsrust::tree::Tree;

#[test]
fn tree_test_parent() {
    let t = Tree::new(vec![None, Some(0), Some(0)]);
    assert_eq!(t.parent(0), None);
    assert_eq!(t.parent(1), Some(0));
    assert_eq!(t.parent(2), Some(0));
}

#[test]
fn tree_test_mrca() {
    let t = Tree::new(vec![None, Some(0), Some(0)]);
    assert_eq!(t.mrca(0, 1), Some(0));
    assert_eq!(t.mrca(0, 2), Some(0));
    assert_eq!(t.mrca(1, 2), Some(0));

    let t2 = Tree::new(vec![None, Some(0), Some(1), Some(2)]);
    assert_eq!(t2.mrca(0, 1), Some(0));
    assert_eq!(t2.mrca(0, 2), Some(0));
    assert_eq!(t2.mrca(0, 3), Some(0));
    assert_eq!(t2.mrca(1, 0), Some(0));
    assert_eq!(t2.mrca(1, 2), Some(1));
    assert_eq!(t2.mrca(1, 3), Some(1));
    assert_eq!(t2.mrca(2, 0), Some(0));
    assert_eq!(t2.mrca(2, 1), Some(1));
    assert_eq!(t2.mrca(2, 3), Some(2));
    assert_eq!(t2.mrca(3, 0), Some(0));
    assert_eq!(t2.mrca(3, 1), Some(1));
    assert_eq!(t2.mrca(3, 2), Some(2));
}
