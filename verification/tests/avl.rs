use search_trees::avl::{AVLTree, Node};

/// Recursively compute the height of a subtree from the structure alone,
/// checking on the way that every stored height field is accurate and that
/// every node satisfies the balance invariant.
fn checked_height(node: &Option<Box<Node>>) -> u64 {
    match node {
        None => 0,
        Some(n) => {
            let hl = checked_height(&n.left);
            let hr = checked_height(&n.right);
            let h = 1 + if hl >= hr { hl } else { hr };
            assert_eq!(n.height as u64, h, "stored height must match the real height");
            let diff = if hl >= hr { hl - hr } else { hr - hl };
            assert!(diff <= 1, "balance invariant violated");
            h
        }
    }
}

/// Recursively check binary-search ordering against exclusive bounds.
fn check_ordered(node: &Option<Box<Node>>, lo: Option<u64>, hi: Option<u64>) {
    if let Some(n) = node {
        if let Some(lo) = lo {
            assert!(lo < n.value);
        }
        if let Some(hi) = hi {
            assert!(n.value < hi);
        }
        check_ordered(&n.left, lo, Some(n.value));
        check_ordered(&n.right, Some(n.value), hi);
    }
}

#[test]
fn test_avl_tree() {
    let mut tree = AVLTree::new();
    tree.insert(2);
    tree.insert(1);
    tree.insert(3);
    assert!(tree.contains(3));
    assert!(!tree.contains(4));
    assert!(tree.in_order_traversal() == vec![1, 2, 3]);
    tree.remove(3);
    assert!(!tree.contains(3));
    assert!(tree.in_order_traversal() == vec![1, 2]);
    assert!(tree.contains(2))
}

#[test]
fn avl_scenario_mixed_order() {
    let mut tree = AVLTree::new();
    tree.insert(5);
    tree.insert(3);
    tree.insert(7);
    tree.insert(10);
    tree.insert(20);
    assert_eq!(tree.in_order_traversal(), vec![3, 5, 7, 10, 20]);
    tree.remove(3);
    assert_eq!(tree.in_order_traversal(), vec![5, 7, 10, 20]);
    assert!(tree.contains(7));
    assert!(!tree.contains(100));
}

#[test]
fn avl_sorted_distinct_after_scrambled_inserts() {
    let mut tree = AVLTree::new();
    // A fixed linear-congruential scramble of 0..200, with repeats.
    let mut x: u64 = 1;
    for _ in 0..400 {
        x = (x.wrapping_mul(48271)) % 200003;
        tree.insert(x % 200);
    }
    let seq = tree.in_order_traversal();
    for w in seq.windows(2) {
        assert!(w[0] < w[1], "traversal must be strictly ascending");
    }
    check_ordered(&tree.root, None, None);
}

#[test]
fn avl_balance_invariant_after_every_operation() {
    let mut tree = AVLTree::new();
    for i in 0..100u64 {
        tree.insert((i * 37) % 101);
        checked_height(&tree.root);
        check_ordered(&tree.root, None, None);
    }
    for i in 0..50u64 {
        tree.remove((i * 53) % 101);
        checked_height(&tree.root);
        check_ordered(&tree.root, None, None);
    }
}

#[test]
fn avl_membership_round_trip() {
    let mut tree = AVLTree::new();
    for v in [0u64, 7, 99, 12345, u64::MAX] {
        tree.insert(v);
        assert!(tree.contains(v));
        tree.remove(v);
        assert!(!tree.contains(v));
    }
}

#[test]
fn avl_insert_idempotent() {
    let mut tree = AVLTree::new();
    tree.insert(4);
    tree.insert(8);
    tree.insert(6);
    let before = tree.in_order_traversal();
    tree.insert(6);
    let after = tree.in_order_traversal();
    assert_eq!(before.len(), after.len());
    assert_eq!(before, after);
}

#[test]
fn avl_remove_absent_is_noop() {
    let mut tree = AVLTree::new();
    tree.insert(10);
    tree.insert(20);
    tree.insert(30);
    let before = tree.in_order_traversal();
    tree.remove(25);
    assert_eq!(tree.in_order_traversal(), before);
    let empty = AVLTree::new();
    assert_eq!(empty.in_order_traversal(), Vec::<u64>::new());
    let mut empty = empty;
    empty.remove(1);
    assert_eq!(empty.in_order_traversal(), Vec::<u64>::new());
}

#[test]
fn avl_height_bound_ascending_inserts() {
    // Degenerate insertion order: without rebalancing this would produce a
    // linear chain; the balanced tree must stay logarithmic.
    let n: u64 = 1000;
    let mut tree = AVLTree::new();
    for i in 1..=n {
        tree.insert(i);
    }
    assert_eq!(tree.in_order_traversal().len() as u64, n);
    let h = tree.height() as f64;
    let bound = 1.4405 * ((n as f64) + 2.0).log2();
    assert!(h <= bound, "height {} exceeds bound {}", h, bound);
}

#[test]
fn avl_height_bound_scrambled_inserts() {
    let mut tree = AVLTree::new();
    let mut x: u64 = 7;
    let mut count: u64 = 0;
    let mut seen = Vec::new();
    for _ in 0..300 {
        x = (x.wrapping_mul(48271)) % 100003;
        if !seen.contains(&x) {
            seen.push(x);
            count += 1;
        }
        tree.insert(x);
    }
    assert_eq!(tree.in_order_traversal().len() as u64, count);
    let h = tree.height() as f64;
    let bound = 1.4405 * ((count as f64) + 2.0).log2();
    assert!(h <= bound, "height {} exceeds bound {}", h, bound);
}
