use data_structures::binary_tree::BinaryTreeNode;

fn build_expression_tree() -> BinaryTreeNode {
    let node3 = BinaryTreeNode::new("3");
    let node4 = BinaryTreeNode::new("4");
    let node5 = BinaryTreeNode::new("5");

    let mut mult = BinaryTreeNode::new("*");
    mult.left = Some(Box::new(node4));
    mult.right = Some(Box::new(node5));

    let mut plus = BinaryTreeNode::new("+");
    plus.left = Some(Box::new(node3));
    plus.right = Some(Box::new(mult));

    plus
}

#[test]
fn test_preorder() {
    let root = build_expression_tree();
    let visited = root.preorder();
    println!("{:?}", visited);
    assert_eq!(visited, vec!["+", "3", "*", "4", "5"]);
}

#[test]
fn test_inorder() {
    let root = build_expression_tree();
    let visited = root.inorder();
    println!("{:?}", visited);
    assert_eq!(visited, vec!["5", "*", "4", "+", "3"]);
}

#[test]
fn test_postorder() {
    let root = build_expression_tree();
    let visited = root.postorder();
    println!("{:?}", visited);
    assert_eq!(visited, vec!["*", "4", "5", "3", "+"]);
}

#[test]
fn test_visual_tree() {
    let root = build_expression_tree();
    let rendered = root.pretty_print();
    println!("{}", rendered);
    assert_eq!(
        rendered,
        "+\n\u{251c}\u{2500}\u{2500} 3\n\u{2514}\u{2500}\u{2500} *\n    \u{251c}\u{2500}\u{2500} 4\n    \u{2514}\u{2500}\u{2500} 5\n"
    );
}
