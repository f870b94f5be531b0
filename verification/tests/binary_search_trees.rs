use data_structures::binary_search_tree::BinarySearchTree;

#[test]
fn insert_and_search() {
    let mut bst = BinarySearchTree::new();
    bst.insert(10);
    bst.insert(5);
    bst.insert(15);

    assert!(bst.search(10));
    assert!(bst.search(5));
    assert!(bst.search(15));
    assert!(!bst.search(20));
}

#[test]
fn insert_duplicates() {
    let mut bst = BinarySearchTree::new();
    bst.insert(10);
    bst.insert(10);

    assert!(bst.search(10));
}

#[test]
fn test_delete() {
    let mut bst = BinarySearchTree::new();
    bst.insert(20);
    bst.insert(10);
    bst.insert(30);
    bst.insert(25);
    bst.insert(35);

    assert!(bst.search(25));
    bst.delete(25);
    assert!(!bst.search(25));

    assert!(bst.search(30));
    bst.delete(30);
    assert!(!bst.search(30));
}

#[test]
fn test_pretty_print() {
    let mut bst = BinarySearchTree::new();
    bst.insert(10);
    bst.insert(5);
    bst.insert(15);
    bst.insert(12);
    bst.insert(11);
    bst.insert(1);
    bst.insert(14);
    bst.insert(9);

    println!("{}", bst.pretty_print());
}

#[test]
fn test_bst_pretty_print_layout() {
    let mut bst = BinarySearchTree::new();
    bst.insert(2);
    bst.insert(1);
    bst.insert(3);

    assert_eq!(bst.pretty_print(), "    3\n2\n    1\n");
}

#[test]
fn test_bst_delete_absent_and_empty() {
    let mut bst = BinarySearchTree::new();
    bst.delete(7);
    assert!(!bst.search(7));

    bst.insert(7);
    bst.delete(8);
    assert!(bst.search(7));
}
