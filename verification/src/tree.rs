//! Binary trees over an arena of nodes addressed by index.
//!
//! Each node names its children by arena index, and a child's index is
//! always smaller than its parent's, so trees are built bottom-up and every
//! walk provably terminates. The three depth-first traversal orders and the
//! breadth-first level order are specified by recursive sequence functions.

use vstd::prelude::*;

verus! {

/// One tree node: a value and the arena indices of its children.
pub struct TreeNode {
    pub val: i32,
    pub left: Option<usize>,
    pub right: Option<usize>,
}

impl TreeNode {
    /// Creates a leaf node.
    pub fn new(val: i32) -> (node: TreeNode)
        ensures
            node.val == val,
            node.left is None,
            node.right is None,
    {
        TreeNode { val, left: None, right: None }
    }
}

/// A child reference below index `j`: either absent or strictly smaller.
pub open spec fn child_below(child: Option<usize>, j: int) -> bool {
    match child {
        Some(c) => (c as int) < j,
        None => true,
    }
}

/// Every node's children sit strictly below it in the arena, so no walk can
/// revisit a node.
pub open spec fn arena_wf(nodes: Seq<TreeNode>) -> bool {
    forall|j: int|
        0 <= j < nodes.len() ==> child_below((#[trigger] nodes[j]).left, j) && child_below(
            nodes[j].right,
            j,
        )
}

/// An optional root that lies inside the arena.
pub open spec fn root_in_bounds(root: Option<usize>, len: int) -> bool {
    match root {
        Some(r) => (r as int) < len,
        None => true,
    }
}

/// A termination measure for walks: an absent subtree measures zero, one
/// rooted at index `r` measures `r + 1`, and children measure less.
pub open spec fn subtree_measure(root: Option<usize>) -> int {
    match root {
        Some(r) => r as int + 1,
        None => 0,
    }
}

/// Whether the spec traversals may step into the node at `r`.
pub open spec fn node_ok(nodes: Seq<TreeNode>, r: usize) -> bool {
    &&& (r as int) < nodes.len()
    &&& child_below(nodes[r as int].left, r as int)
    &&& child_below(nodes[r as int].right, r as int)
}

/// Root, then left subtree, then right subtree.
pub open spec fn pre_seq(nodes: Seq<TreeNode>, root: Option<usize>) -> Seq<i32>
    decreases subtree_measure(root),
{
    match root {
        None => Seq::empty(),
        Some(r) => if node_ok(nodes, r) {
            seq![nodes[r as int].val] + pre_seq(nodes, nodes[r as int].left) + pre_seq(
                nodes,
                nodes[r as int].right,
            )
        } else {
            Seq::empty()
        },
    }
}

/// Left subtree, then root, then right subtree.
pub open spec fn in_seq(nodes: Seq<TreeNode>, root: Option<usize>) -> Seq<i32>
    decreases subtree_measure(root),
{
    match root {
        None => Seq::empty(),
        Some(r) => if node_ok(nodes, r) {
            in_seq(nodes, nodes[r as int].left) + seq![nodes[r as int].val] + in_seq(
                nodes,
                nodes[r as int].right,
            )
        } else {
            Seq::empty()
        },
    }
}

/// Left subtree, then right subtree, then root.
pub open spec fn post_seq(nodes: Seq<TreeNode>, root: Option<usize>) -> Seq<i32>
    decreases subtree_measure(root),
{
    match root {
        None => Seq::empty(),
        Some(r) => if node_ok(nodes, r) {
            post_seq(nodes, nodes[r as int].left) + post_seq(nodes, nodes[r as int].right) + seq![
                nodes[r as int].val,
            ]
        } else {
            Seq::empty()
        },
    }
}

/// The values exactly `depth` edges below the root, left to right.
pub open spec fn level_seq(nodes: Seq<TreeNode>, root: Option<usize>, depth: nat) -> Seq<i32>
    decreases subtree_measure(root),
{
    match root {
        None => Seq::empty(),
        Some(r) => if node_ok(nodes, r) {
            if depth == 0 {
                seq![nodes[r as int].val]
            } else {
                level_seq(nodes, nodes[r as int].left, (depth - 1) as nat) + level_seq(
                    nodes,
                    nodes[r as int].right,
                    (depth - 1) as nat,
                )
            }
        } else {
            Seq::empty()
        },
    }
}

/// The first `count` levels, shallowest first: the breadth-first order.
pub open spec fn levels_upto(nodes: Seq<TreeNode>, root: Option<usize>, count: nat) -> Seq<i32>
    decreases count,
{
    if count == 0 {
        Seq::empty()
    } else {
        levels_upto(nodes, root, (count - 1) as nat) + level_seq(nodes, root, (count - 1) as nat)
    }
}

/// Once a level is empty, the next one is too: nothing sits below nothing.
proof fn lemma_empty_level_stays_empty(nodes: Seq<TreeNode>, root: Option<usize>, depth: nat)
    requires
        level_seq(nodes, root, depth) == Seq::<i32>::empty(),
    ensures
        level_seq(nodes, root, depth + 1) == Seq::<i32>::empty(),
    decreases subtree_measure(root),
{
    match root {
        None => {},
        Some(r) => {
            if node_ok(nodes, r) {
                if depth == 0 {
                    assert(level_seq(nodes, root, depth).len() == 1);
                } else {
                    let left = nodes[r as int].left;
                    let right = nodes[r as int].right;
                    assert(level_seq(nodes, left, (depth - 1) as nat) == Seq::<i32>::empty());
                    assert(level_seq(nodes, right, (depth - 1) as nat) == Seq::<i32>::empty());
                    lemma_empty_level_stays_empty(nodes, left, (depth - 1) as nat);
                    lemma_empty_level_stays_empty(nodes, right, (depth - 1) as nat);
                    assert(level_seq(nodes, root, depth + 1) =~= Seq::<i32>::empty());
                }
            }
        },
    }
}

/// Once a level is empty, every deeper level is empty as well.
proof fn lemma_empty_level_beyond(nodes: Seq<TreeNode>, root: Option<usize>, depth: nat, deeper: nat)
    requires
        level_seq(nodes, root, depth) == Seq::<i32>::empty(),
        depth <= deeper,
    ensures
        level_seq(nodes, root, deeper) == Seq::<i32>::empty(),
    decreases deeper - depth,
{
    if depth < deeper {
        lemma_empty_level_stays_empty(nodes, root, depth);
        lemma_empty_level_beyond(nodes, root, depth + 1, deeper);
    }
}

/// Levels past an empty one add nothing to the breadth-first order.
proof fn lemma_levels_upto_frozen(nodes: Seq<TreeNode>, root: Option<usize>, depth: nat, count: nat)
    requires
        level_seq(nodes, root, depth) == Seq::<i32>::empty(),
        depth <= count,
    ensures
        levels_upto(nodes, root, count) == levels_upto(nodes, root, depth),
    decreases count - depth,
{
    if depth < count {
        lemma_empty_level_beyond(nodes, root, depth, (count - 1) as nat);
        lemma_levels_upto_frozen(nodes, root, depth, (count - 1) as nat);
        assert(levels_upto(nodes, root, count) =~= levels_upto(nodes, root, depth));
    }
}

/// The values exactly `depth` edges below the root, collected left to right.
fn nodes_at_depth(nodes: &Vec<TreeNode>, root: Option<usize>, depth: usize) -> (values: Vec<i32>)
    requires
        arena_wf(nodes@),
        root_in_bounds(root, nodes@.len() as int),
    ensures
        values@ == level_seq(nodes@, root, depth as nat),
    decreases subtree_measure(root),
{
    match root {
        None => Vec::new(),
        Some(r) => {
            proof {
                assert(node_ok(nodes@, r));
            }
            if depth == 0 {
                let mut values: Vec<i32> = Vec::new();
                values.push(nodes[r].val);
                proof {
                    assert(values@ =~= level_seq(nodes@, root, depth as nat));
                }
                values
            } else {
                let mut values = nodes_at_depth(nodes, nodes[r].left, depth - 1);
                let mut right_values = nodes_at_depth(nodes, nodes[r].right, depth - 1);
                values.append(&mut right_values);
                values
            }
        },
    }
}

/// Breadth-first traversal: visits the tree level by level, each level left
/// to right. No tree in an arena of `n` nodes is deeper than `n` levels, so
/// the result covers them all.
pub fn level_order(nodes: &Vec<TreeNode>, root: Option<usize>) -> (values: Vec<i32>)
    requires
        arena_wf(nodes@),
        root_in_bounds(root, nodes@.len() as int),
        nodes@.len() < usize::MAX,
    ensures
        values@ == levels_upto(nodes@, root, (nodes@.len() + 1) as nat),
{
    let mut values: Vec<i32> = Vec::new();
    let mut depth: usize = 0;
    let bound = nodes.len() + 1;
    while depth < bound
        invariant
            arena_wf(nodes@),
            root_in_bounds(root, nodes@.len() as int),
            bound == nodes@.len() + 1,
            depth <= bound,
            values@ == levels_upto(nodes@, root, depth as nat),
        ensures
            values@ == levels_upto(nodes@, root, bound as nat),
        decreases bound - depth,
    {
        let mut level = nodes_at_depth(nodes, root, depth);
        if level.len() == 0 {
            proof {
                assert(level@ =~= Seq::<i32>::empty());
                lemma_levels_upto_frozen(nodes@, root, depth as nat, bound as nat);
            }
            break ;
        }
        values.append(&mut level);
        depth = depth + 1;
    }
    values
}

/// Depth-first traversal visiting each node before its subtrees.
pub fn pre_order(nodes: &Vec<TreeNode>, root: Option<usize>) -> (values: Vec<i32>)
    requires
        arena_wf(nodes@),
        root_in_bounds(root, nodes@.len() as int),
    ensures
        values@ == pre_seq(nodes@, root),
    decreases subtree_measure(root),
{
    match root {
        None => Vec::new(),
        Some(r) => {
            proof {
                assert(node_ok(nodes@, r));
            }
            let mut values: Vec<i32> = Vec::new();
            values.push(nodes[r].val);
            let mut left_values = pre_order(nodes, nodes[r].left);
            values.append(&mut left_values);
            let mut right_values = pre_order(nodes, nodes[r].right);
            values.append(&mut right_values);
            proof {
                assert(values@ =~= pre_seq(nodes@, root));
            }
            values
        },
    }
}

/// Depth-first traversal visiting each node between its subtrees.
pub fn in_order(nodes: &Vec<TreeNode>, root: Option<usize>) -> (values: Vec<i32>)
    requires
        arena_wf(nodes@),
        root_in_bounds(root, nodes@.len() as int),
    ensures
        values@ == in_seq(nodes@, root),
    decreases subtree_measure(root),
{
    match root {
        None => Vec::new(),
        Some(r) => {
            proof {
                assert(node_ok(nodes@, r));
            }
            let mut values = in_order(nodes, nodes[r].left);
            values.push(nodes[r].val);
            let mut right_values = in_order(nodes, nodes[r].right);
            values.append(&mut right_values);
            proof {
                assert(values@ =~= in_seq(nodes@, root));
            }
            values
        },
    }
}

/// Depth-first traversal visiting each node after its subtrees.
pub fn post_order(nodes: &Vec<TreeNode>, root: Option<usize>) -> (values: Vec<i32>)
    requires
        arena_wf(nodes@),
        root_in_bounds(root, nodes@.len() as int),
    ensures
        values@ == post_seq(nodes@, root),
    decreases subtree_measure(root),
{
    match root {
        None => Vec::new(),
        Some(r) => {
            proof {
                assert(node_ok(nodes@, r));
            }
            let mut values = post_order(nodes, nodes[r].left);
            let mut right_values = post_order(nodes, nodes[r].right);
            values.append(&mut right_values);
            values.push(nodes[r].val);
            proof {
                assert(values@ =~= post_seq(nodes@, root));
            }
            values
        },
    }
}

} // verus!
