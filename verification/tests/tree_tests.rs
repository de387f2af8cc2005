use kvtables::tree::{in_order, level_order, post_order, pre_order, TreeNode};

/// The five-node tree: 1 at the root, children 2 and 3, and 4 and 5 below 2.
/// Children sit at smaller arena indices than their parents.
fn five_node_tree() -> (Vec<TreeNode>, Option<usize>) {
    let mut nodes = vec![
        TreeNode::new(4),
        TreeNode::new(5),
        TreeNode::new(2),
        TreeNode::new(3),
        TreeNode::new(1),
    ];
    nodes[2].left = Some(0);
    nodes[2].right = Some(1);
    nodes[4].left = Some(2);
    nodes[4].right = Some(3);
    (nodes, Some(4))
}

#[test]
fn depth_first_orders() {
    let (nodes, root) = five_node_tree();
    assert_eq!(pre_order(&nodes, root), vec![1, 2, 4, 5, 3]);
    assert_eq!(in_order(&nodes, root), vec![4, 2, 5, 1, 3]);
    assert_eq!(post_order(&nodes, root), vec![4, 5, 2, 3, 1]);
}

#[test]
fn breadth_first_order() {
    let (nodes, root) = five_node_tree();
    assert_eq!(level_order(&nodes, root), vec![1, 2, 3, 4, 5]);
}

#[test]
fn traversals_of_the_empty_tree() {
    let nodes: Vec<TreeNode> = Vec::new();
    assert_eq!(pre_order(&nodes, None), Vec::<i32>::new());
    assert_eq!(in_order(&nodes, None), Vec::<i32>::new());
    assert_eq!(post_order(&nodes, None), Vec::<i32>::new());
    assert_eq!(level_order(&nodes, None), Vec::<i32>::new());
}

#[test]
fn single_node_tree() {
    let nodes = vec![TreeNode::new(7)];
    assert_eq!(pre_order(&nodes, Some(0)), vec![7]);
    assert_eq!(level_order(&nodes, Some(0)), vec![7]);
}

#[test]
fn inserting_a_node_above_a_subtree() {
    // Splice a node between the root and its left child, as rebuilding the
    // links does in a pointer-based tree.
    let (mut nodes, root) = five_node_tree();
    nodes.push(TreeNode::new(0));
    let spliced = nodes.len() - 1;
    nodes[spliced].left = Some(2);
    // A child index must stay below its parent, so rebuild the root above it.
    nodes.push(TreeNode { val: 1, left: Some(spliced), right: Some(3) });
    let new_root = Some(nodes.len() - 1);
    assert_eq!(pre_order(&nodes, new_root), vec![1, 0, 2, 4, 5, 3]);
    let _ = root;
}
