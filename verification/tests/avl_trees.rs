use data_structures::avl_tree::AvlNode;
use data_structures::avl_tree::AvlTree;

fn assert_balanced(node: &Option<Box<AvlNode>>) {
    if let Some(n) = node {
        let bf = AvlTree::get_balance(Some(n));
        assert!(
            (-1..=1).contains(&bf),
            "Unbalanced at node with value {:?}",
            n.value
        );
        assert_balanced(&n.left);
        assert_balanced(&n.right);
    }
}

#[test]
fn test_avl_tree_creation() {
    let tree = AvlTree::new(10);
    assert!(tree.root.is_some());

    if let Some(root) = &tree.root {
        assert_eq!(root.value, 10);
        assert!(root.left.is_none());
        assert!(root.right.is_none());
        assert_eq!(root.height, 0);
    }
}

#[test]
fn test_single_insertion() {
    let mut tree = AvlTree::new(20);
    tree.insert(10);

    let root = tree.root.as_ref().unwrap();
    assert_eq!(root.value, 20);
    assert!(root.left.is_some());
    assert!(root.right.is_none());
}

#[test]
fn test_ll_rotation() {
    let mut tree = AvlTree::new(30);
    tree.insert(20);
    tree.insert(10); // Triggers LL rotation

    let root = tree.root.as_ref().unwrap();
    assert_eq!(root.value, 20);
    assert_eq!(root.left.as_ref().unwrap().value, 10);
    assert_eq!(root.right.as_ref().unwrap().value, 30);
}

#[test]
fn test_rr_rotation() {
    let mut tree = AvlTree::new(10);
    tree.insert(20);
    tree.insert(30); // Triggers RR rotation

    let root = tree.root.as_ref().unwrap();
    assert_eq!(root.value, 20);
    assert_eq!(root.left.as_ref().unwrap().value, 10);
    assert_eq!(root.right.as_ref().unwrap().value, 30);
}

#[test]
fn test_lr_rotation() {
    let mut tree = AvlTree::new(30);
    tree.insert(10);
    tree.insert(20); // Triggers LR rotation

    let root = tree.root.as_ref().unwrap();
    assert_eq!(root.value, 20);
    assert_eq!(root.left.as_ref().unwrap().value, 10);
    assert_eq!(root.right.as_ref().unwrap().value, 30);
}

#[test]
fn test_rl_rotation() {
    let mut tree = AvlTree::new(10);
    tree.insert(30);
    tree.insert(20); // Triggers RL rotation

    let root = tree.root.as_ref().unwrap();
    assert_eq!(root.value, 20);
    assert_eq!(root.left.as_ref().unwrap().value, 10);
    assert_eq!(root.right.as_ref().unwrap().value, 30);
}

#[test]
fn test_balanced_tree_heights() {
    let mut tree = AvlTree::new(15);
    tree.insert(10);
    tree.insert(20);
    tree.insert(5);
    tree.insert(12);
    tree.insert(18);
    tree.insert(25);

    assert_balanced(&tree.root);
}

#[test]
fn test_avl_deletion_balanced() {
    let mut tree = AvlTree::new(20);
    tree.insert(10);
    tree.insert(30);
    tree.insert(5);
    tree.insert(15);
    tree.insert(25);
    tree.insert(35);

    tree.delete(10); // node with two children

    let root = tree.root.as_ref().unwrap();
    assert_eq!(root.value, 20);
    assert!(root.left.is_some());
    assert!(root.right.is_some());

    assert_balanced(&tree.root);
}

#[test]
fn test_avl_delete_absent_key() {
    let mut tree = AvlTree::new(8);
    tree.insert(3);
    tree.delete(99);

    let root = tree.root.as_ref().unwrap();
    assert_eq!(root.value, 8);
    assert_eq!(root.left.as_ref().unwrap().value, 3);
    assert!(root.right.is_none());
}

#[test]
fn test_avl_get_height_values() {
    let tree = AvlTree::new(1);
    assert_eq!(AvlTree::get_height(None), -1);
    assert_eq!(AvlTree::get_height(tree.root.as_ref()), 0);
    assert_eq!(AvlTree::get_balance(None), 0);
}
