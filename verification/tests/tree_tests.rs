use rbtree::tree::node::Node;
use rbtree::tree::utils::Color;
use rbtree::tree::Tree;

fn assert_no_red_violations(tree: &Tree) {
    assert!(
        tree.no_red_violations(),
        "Child of red node must be black"
    );
}

fn assert_no_black_violations(tree: &Tree) {
    assert!(
        tree.no_black_violations(),
        "Paths to leaves must contain same amount of black nodes"
    );
}

fn assert_tree_size(tree: &Tree, expected_size: usize) {
    assert_eq!(tree.size(), expected_size, "Tree was not the right size");
}

#[test]
fn tree_test_new_tree_is_empty() {
    assert!(Tree::new().is_empty());
}

#[test]
fn tree_test_after_insert_tree_not_empty() {
    let mut tree = Tree::new();
    tree.insert(8);
    assert!(!tree.is_empty());
}

#[test]
fn tree_test_contains() {
    let t = Tree {
        root: Some(Box::new(Node {
            color: Color::Red,
            value: 5,
            left: Some(Box::new(Node {
                color: Color::Red,
                value: 3,
                left: Some(Box::new(Node {
                    color: Color::Red,
                    value: 1,
                    left: None,
                    right: None,
                })),
                right: Some(Box::new(Node {
                    color: Color::Red,
                    value: 4,
                    left: None,
                    right: None,
                })),
            })),
            right: Some(Box::new(Node {
                color: Color::Red,
                value: 8,
                left: Some(Box::new(Node {
                    color: Color::Red,
                    value: 6,
                    left: None,
                    right: None,
                })),
                right: None,
            })),
        })),
    };
    assert!(t.contains(5));
    assert!(t.contains(6));
    assert!(t.contains(1));
    assert!(t.contains(4));

    assert!(!t.contains(2));
    assert!(!t.contains(7));
}

#[test]
fn tree_test_insert_1() {
    let mut t = Tree::new();
    t.insert(3);
    t.insert(6);
    t.insert(1);

    assert_no_red_violations(&t);
    assert_no_black_violations(&t);

    assert_tree_size(&t, 3);
}

#[test]
fn tree_test_insert_2() {
    let mut tree = Tree::new();
    let values = vec![45, 13, 54, 14, 77, 12, 0, -3, 43, 111, 124, 55, 3, 1, 211434, 3];
    let expected_size = values.len();
    for i in values {
        tree.insert(i);
    }

    assert_no_red_violations(&tree);
    assert_no_black_violations(&tree);
    assert_tree_size(&tree, expected_size);
}

#[test]
fn tree_test_into_iter() {
    let mut tree = Tree::new();
    let values = vec![145, -1243, 54, -123, 434, 13];
    for i in values {
        tree.insert(i);
    }

    let mut it = tree.into_iter();
    let mut got: Vec<i64> = Vec::new();
    while let Some(v) = it.next() {
        got.push(v);
    }
    assert_eq!(got, vec![-1243, -123, 13, 54, 145, 434]);
}
