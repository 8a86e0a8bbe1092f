use rbtree::tree::node::Node;
use rbtree::tree::utils::Color;
use rbtree::tree::RBTree;

fn assert_no_red_violations(tree: &RBTree) {
    assert!(
        tree.no_red_violations(),
        "Child of red node must be black"
    );
}

fn assert_no_black_violations(tree: &RBTree) {
    assert!(
        tree.no_black_violations(),
        "Paths to leaves must contain same amount of black nodes"
    );
}

fn assert_tree_size(tree: &RBTree, expected_size: usize) {
    assert_eq!(tree.size(), expected_size, "RBTree was not the right size");
}

fn collect(tree: RBTree) -> Vec<i64> {
    let mut it = tree.into_iter();
    let mut out: Vec<i64> = Vec::new();
    while let Some(v) = it.next() {
        out.push(v);
    }
    out
}

#[test]
fn mod_test_new_tree_is_empty() {
    assert!(RBTree::new().is_empty());
}

#[test]
fn mod_test_after_insert_tree_not_empty() {
    let mut tree = RBTree::new();
    tree.insert(8);
    assert!(!tree.is_empty());
}

#[test]
fn mod_test_contains() {
    let t = RBTree {
        root: Some(Box::new(Node {
            color: Color::Red,
            value: 5,
            left: Some(Box::new(Node {
                color: Color::Red,
                value: 3,
                left: Some(Box::new(Node {
                    color: Color::Red,
                    value: 1,
                    left: None,
                    right: None,
                })),
                right: Some(Box::new(Node {
                    color: Color::Red,
                    value: 4,
                    left: None,
                    right: None,
                })),
            })),
            right: Some(Box::new(Node {
                color: Color::Red,
                value: 8,
                left: Some(Box::new(Node {
                    color: Color::Red,
                    value: 6,
                    left: None,
                    right: None,
                })),
                right: None,
            })),
        })),
    };
    assert!(t.contains(5));
    assert!(t.contains(6));
    assert!(t.contains(1));
    assert!(t.contains(4));

    assert!(!t.contains(2));
    assert!(!t.contains(7));
}

#[test]
fn mod_test_insert_1() {
    let mut t = RBTree::new();
    t.insert(3);
    t.insert(6);
    t.insert(1);

    assert_no_red_violations(&t);
    assert_no_black_violations(&t);

    assert_tree_size(&t, 3);
}

#[test]
fn mod_test_insert_2() {
    let mut tree = RBTree::new();
    let values = vec![45, 13, 54, 14, 77, 12, 0, -3, 43, 111, 124, 55, 3, 1, 211434, 3];
    let expected_size = values.len();
    for i in values {
        tree.insert(i);
    }

    assert_no_red_violations(&tree);
    assert_no_black_violations(&tree);
    assert_tree_size(&tree, expected_size);
}

#[test]
fn mod_test_into_iter() {
    let mut tree = RBTree::new();
    let values = vec![145, -1243, 54, -123, 434, 13];
    for i in values {
        tree.insert(i);
    }

    assert_eq!(collect(tree), vec![-1243, -123, 13, 54, 145, 434]);
}

#[test]
fn test_delete_1() {
    let mut tree = RBTree::new();
    let initial_values = vec![176, 342, 941, 541, 973, 1234, 55, -1, 45, -2245, 451, 5];
    let initial_len = initial_values.len();
    for i in initial_values {
        tree.insert(i);
    }

    tree.delete(941);
    tree.delete(1234);
    tree.delete(-2245);
    tree.delete(-1);
    // not in tree!
    tree.delete(100);

    assert_tree_size(&tree, initial_len - 4);
    assert_no_red_violations(&tree);
    assert_no_black_violations(&tree);
}

#[test]
fn test_delete_2() {
    let mut tree = RBTree::new();
    for i in 0..1000 {
        tree.insert(i);
    }

    tree.delete(645);
    tree.delete(646);
    tree.delete(87);

    assert_tree_size(&tree, 997);
    assert_no_red_violations(&tree);
    assert_no_black_violations(&tree);
}

#[test]
fn test_delete_3() {
    let mut tree = RBTree::new();
    for i in 0..1000 {
        tree.insert(i % 5);
    }

    for _ in 0..10 {
        assert!(tree.delete(3));
    }

    assert_tree_size(&tree, 990);
    assert_no_red_violations(&tree);
    assert_no_black_violations(&tree);
}

#[test]
fn test_delete_all_then_insert() {
    let mut tree = RBTree::new();
    assert!(!tree.delete(8));
    let v = vec![134, 75, 13, 54, 9, 134, 4];
    for i in v.iter() {
        tree.insert(*i);
    }

    for i in v.iter() {
        assert!(tree.delete(*i));
    }
    assert!(tree.is_empty());

    tree.insert(4);
    tree.insert(123);
    tree.insert(-1);

    assert_tree_size(&tree, 3);
}

#[test]
fn test_insert_1_into_iter() {
    let mut t = RBTree::new();
    t.insert(3);
    t.insert(6);
    t.insert(1);

    assert_tree_size(&t, 3);
    assert_no_red_violations(&t);
    assert_no_black_violations(&t);
    assert!(t.root_is_black());
    assert_eq!(collect(t), vec![1, 3, 6]);
}

#[test]
fn test_delete_absent_returns_false() {
    let mut tree = RBTree::new();
    for i in vec![176, 342, 941, 541, 973, 1234, 55, -1, 45, -2245, 451, 5] {
        tree.insert(i);
    }

    assert!(tree.delete(941));
    assert!(tree.delete(1234));
    assert!(tree.delete(-2245));
    assert!(tree.delete(-1));
    assert!(!tree.delete(100));

    assert_tree_size(&tree, 8);
    assert_no_red_violations(&tree);
    assert_no_black_violations(&tree);
    assert!(tree.root_is_black());
}

#[test]
fn test_delete_on_empty() {
    let mut tree = RBTree::new();
    assert!(!tree.delete(8));
    assert!(tree.is_empty());
    assert_tree_size(&tree, 0);
}

#[test]
fn test_invariants_after_each_operation() {
    let mut tree = RBTree::new();
    let inserts = vec![20, 10, 30, 5, 15, 25, 35, 1, 7, 12, 18, 40];
    for i in inserts {
        tree.insert(i);
        assert_no_red_violations(&tree);
        assert_no_black_violations(&tree);
        assert!(tree.root_is_black());
    }
    for d in vec![10, 30, 1, 40, 20, 99] {
        tree.delete(d);
        assert_no_red_violations(&tree);
        assert_no_black_violations(&tree);
        assert!(tree.root_is_black());
    }
}

#[test]
fn test_size_accounting() {
    let mut tree = RBTree::new();
    let mut inserts: usize = 0;
    let mut removed: usize = 0;
    for i in 0..100 {
        tree.insert(i % 7);
        inserts += 1;
    }
    for d in vec![3, 3, 3, 100, 6, -1, 0] {
        if tree.delete(d) {
            removed += 1;
        }
    }
    assert_eq!(tree.size(), inserts - removed);
    assert_eq!(removed, 5);
}

#[test]
fn test_sorted_output_after_mixed_ops() {
    let mut tree = RBTree::new();
    for i in vec![9, -4, 17, 3, 3, 0, 25, -30, 8, 14, 2, 6] {
        tree.insert(i);
    }
    assert!(tree.delete(17));
    assert!(tree.delete(-30));
    assert!(!tree.delete(1000));
    let out = collect(tree);
    assert_eq!(out, vec![-4, 0, 2, 3, 3, 6, 8, 9, 14, 25]);
    for w in out.windows(2) {
        assert!(w[0] <= w[1]);
    }
}

#[test]
fn test_round_trip() {
    let mut tree = RBTree::new();
    let keys = vec![8, 3, 11, 1, 5, 9, 14, 4, 6, 13];
    for k in keys.iter() {
        tree.insert(*k);
    }
    for k in keys.iter() {
        assert!(tree.delete(*k));
    }
    assert!(tree.is_empty());

    // further inserts behave as on a fresh tree
    tree.insert(2);
    tree.insert(1);
    tree.insert(3);
    assert_tree_size(&tree, 3);
    assert_eq!(collect(tree), vec![1, 2, 3]);
}

#[test]
fn test_duplicate_keys() {
    let mut tree = RBTree::new();
    tree.insert(7);
    tree.insert(7);
    tree.insert(7);
    assert_tree_size(&tree, 3);
    assert!(tree.contains(7));
    assert!(tree.delete(7));
    assert!(tree.delete(7));
    assert!(tree.delete(7));
    assert!(!tree.delete(7));
    assert!(tree.is_empty());
}

#[test]
fn test_extreme_keys() {
    let mut tree = RBTree::new();
    tree.insert(i64::MAX);
    tree.insert(i64::MIN);
    tree.insert(0);
    assert!(tree.contains(i64::MAX));
    assert!(tree.contains(i64::MIN));
    assert_eq!(collect(tree), vec![i64::MIN, 0, i64::MAX]);
}

#[test]
fn test_into_iter_empty() {
    let tree = RBTree::new();
    let mut it = tree.into_iter();
    assert_eq!(it.next(), None);
    assert_eq!(it.next(), None);
}
