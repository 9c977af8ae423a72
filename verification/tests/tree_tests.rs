use fingertips::tree::BinaryTree;
use fingertips::tree::TreeNode;

fn make_node<T>(left: BinaryTree<T>, element: T, right: BinaryTree<T>) -> BinaryTree<T> {
    BinaryTree::NonEmpty(Box::new(TreeNode {
        left,
        element,
        right,
    }))
}

#[test]
fn external_iterator() {
    // Build a small tree.
    let subtree_l = make_node(BinaryTree::Empty, "mecha", BinaryTree::Empty);
    let subtree_rl = make_node(BinaryTree::Empty, "droid", BinaryTree::Empty);
    let subtree_r = make_node(subtree_rl, "robot", BinaryTree::Empty);
    let tree = make_node(subtree_l, "Jaeger", subtree_r);

    // Iterate over it.
    let mut v = Vec::new();
    let mut it = tree.iter();
    while let Some(kind) = it.next() {
        v.push(*kind);
    }
    assert_eq!(v, ["mecha", "Jaeger", "droid", "robot"]);

    let mut mega = Vec::new();
    let mut it = tree.iter();
    while let Some(name) = it.next() {
        mega.push(format!("mega-{}", name));
    }
    assert_eq!(
        mega,
        vec!["mega-mecha", "mega-Jaeger", "mega-droid", "mega-robot"]
    );
}

#[test]
fn iterating_the_empty_tree_yields_nothing() {
    let tree: BinaryTree<u32> = BinaryTree::Empty;
    let mut it = tree.iter();
    assert!(it.next().is_none());
    assert!(it.next().is_none());
}
