use search_trees::bst::BST;

#[test]
fn test_bst() {
    let mut bst = BST::new();
    bst.insert(3);
    bst.insert(4);
    bst.insert(1);
    bst.insert(2);
    bst.insert(5);
    bst.insert(6);
    assert!(bst.search(4).is_some());
    assert_eq!(bst.in_order_traversal(), vec![1, 2, 3, 4, 5, 6]);
    bst.remove(5);
    assert_eq!(bst.in_order_traversal(), vec![1, 2, 3, 4, 6]);
    assert!(bst.search(5).is_none());
}

#[test]
fn bst_baseline_scenario() {
    let mut bst = BST::new();
    bst.insert(3);
    bst.insert(4);
    bst.insert(1);
    bst.insert(2);
    bst.insert(5);
    bst.insert(6);
    assert_eq!(bst.in_order_traversal(), vec![1, 2, 3, 4, 5, 6]);
    bst.remove(5);
    assert_eq!(bst.in_order_traversal(), vec![1, 2, 3, 4, 6]);
    assert!(bst.search(5).is_none());
    let found = bst.search(4);
    assert!(found.is_some());
    assert_eq!(found.unwrap().value, 4);
}

#[test]
fn bst_search_returns_matching_subtree() {
    let mut bst = BST::new();
    bst.insert(10);
    bst.insert(5);
    bst.insert(15);
    bst.insert(12);
    let found = bst.search(15).expect("present key must be found");
    assert_eq!(found.value, 15);
    let inner_left = found.left.as_ref().expect("subtree copy keeps children");
    assert_eq!(inner_left.value, 12);
    assert!(bst.search(11).is_none());
}

#[test]
fn bst_insert_duplicate_and_remove_absent() {
    let mut bst = BST::new();
    bst.insert(2);
    bst.insert(9);
    bst.insert(2);
    assert_eq!(bst.in_order_traversal(), vec![2, 9]);
    bst.remove(7);
    assert_eq!(bst.in_order_traversal(), vec![2, 9]);
    let empty = BST::new();
    assert_eq!(empty.in_order_traversal(), Vec::<u64>::new());
    assert!(empty.search(1).is_none());
}

#[test]
fn bst_remove_node_with_two_children() {
    let mut bst = BST::new();
    for v in [50u64, 30, 70, 20, 40, 60, 80] {
        bst.insert(v);
    }
    bst.remove(50);
    assert_eq!(bst.in_order_traversal(), vec![20, 30, 40, 60, 70, 80]);
    bst.remove(30);
    assert_eq!(bst.in_order_traversal(), vec![20, 40, 60, 70, 80]);
}
