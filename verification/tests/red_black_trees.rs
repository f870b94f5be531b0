use data_structures::red_black_tree::Node;
use data_structures::red_black_tree::RedBlackTree;

/// Checks the colour invariants below `node` and returns its black
/// height: no red node has a red child, and both children agree on the
/// number of black nodes down to the sentinels.
fn check_colours(node: &Option<Box<Node>>) -> u32 {
    match node {
        None => 0,
        Some(n) => {
            if n.is_red {
                assert!(!node_red(&n.left), "red node {} has a red left child", n.value);
                assert!(!node_red(&n.right), "red node {} has a red right child", n.value);
            }
            let hl = check_colours(&n.left);
            let hr = check_colours(&n.right);
            assert_eq!(hl, hr, "unequal black heights under {}", n.value);
            hl + if n.is_red { 0 } else { 1 }
        }
    }
}

fn node_red(node: &Option<Box<Node>>) -> bool {
    match node {
        None => false,
        Some(n) => n.is_red,
    }
}

/// The full invariant: black root, no red-red edge, equal black counts.
fn check_invariants(tree: &RedBlackTree) {
    assert!(!node_red(&tree.root), "root must be black");
    check_colours(&tree.root);
}

#[test]
fn test_insertion() {
    let mut tree = RedBlackTree::new();
    tree.insert(10);
    tree.insert(5);
    tree.insert(15);
    tree.insert(12);
    tree.insert(1);

    assert_eq!(tree.inorder(), vec![1, 5, 10, 12, 15]);
}

#[test]
fn test_deletion_leaf_node() {
    let mut tree = RedBlackTree::new();
    tree.insert(10);
    tree.insert(5);
    tree.insert(15);

    tree.delete(5); // Leaf
    assert_eq!(tree.inorder(), vec![10, 15]);
}

#[test]
fn test_deletion_node_with_one_child() {
    let mut tree = RedBlackTree::new();
    tree.insert(10);
    tree.insert(5);
    tree.insert(2); // 5 has one child

    tree.delete(5);
    assert_eq!(tree.inorder(), vec![2, 10]);
}

#[test]
fn test_deletion_node_with_two_children() {
    let mut tree = RedBlackTree::new();
    tree.insert(20);
    tree.insert(10);
    tree.insert(30);
    tree.insert(25);
    tree.insert(35);

    tree.delete(30); // has two children
    assert_eq!(tree.inorder(), vec![10, 20, 25, 35]);
}

#[test]
fn test_deletion_root_node() {
    let mut tree = RedBlackTree::new();
    tree.insert(10);
    tree.insert(5);
    tree.insert(15);

    tree.delete(10); // root
    assert_eq!(tree.inorder(), vec![5, 15]);
}

#[test]
fn test_inorder_sorted_distinct_after_inserts() {
    let mut tree = RedBlackTree::new();
    for value in [5, 3, 8, 3, 1, 8, 13, 2, 21, 1] {
        tree.insert(value);
    }

    // Exactly the distinct inserted keys, in ascending order.
    assert_eq!(tree.inorder(), vec![1, 2, 3, 5, 8, 13, 21]);
}

#[test]
fn test_invariants_after_every_operation() {
    let mut tree = RedBlackTree::new();
    check_invariants(&tree);

    let keys = [41, 38, 31, 12, 19, 8, 45, 70, 2, 55, 60, 17, 90, 25, 33];
    for key in keys {
        tree.insert(key);
        check_invariants(&tree);
    }
    for key in [8, 12, 19, 31, 38, 41, 99, 2, 90] {
        tree.delete(key);
        check_invariants(&tree);
    }
    assert_eq!(tree.inorder(), vec![17, 25, 33, 45, 55, 60, 70]);
}

#[test]
fn test_insert_existing_key_is_noop() {
    let mut tree = RedBlackTree::new();
    for value in [7, 3, 11, 5] {
        tree.insert(value);
    }
    let before = tree.inorder();

    tree.insert(11);
    assert_eq!(tree.inorder(), before);
    check_invariants(&tree);
}

#[test]
fn test_delete_absent_key_is_noop() {
    let mut tree = RedBlackTree::new();
    for value in [7, 3, 11, 5] {
        tree.insert(value);
    }
    let before = tree.inorder();

    tree.delete(100);
    assert_eq!(tree.inorder(), before);
    check_invariants(&tree);
}

#[test]
fn test_insert_then_delete_restores_key_set() {
    let mut tree = RedBlackTree::new();
    for value in [50, 20, 80, 10, 35, 65, 95] {
        tree.insert(value);
    }
    let before = tree.inorder();

    tree.insert(42);
    tree.delete(42);
    assert_eq!(tree.inorder(), before);
    check_invariants(&tree);
}

#[test]
fn test_search_and_empty_tree() {
    let mut tree = RedBlackTree::new();
    assert_eq!(tree.inorder(), Vec::<i64>::new());
    assert!(!tree.search(4));

    tree.insert(4);
    assert!(tree.search(4));
    assert!(!tree.search(5));

    tree.delete(4);
    assert!(!tree.search(4));
    assert_eq!(tree.inorder(), Vec::<i64>::new());
}

#[test]
fn test_new_leaf_node_is_red() {
    let node = Node::new(9);
    assert_eq!(node.value, 9);
    assert!(node.is_red);
    assert!(node.left.is_none());
    assert!(node.right.is_none());
}
