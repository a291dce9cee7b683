//! The implicit binary tree of node states.
//!
//! The root is node 0; the children of node `i` are `2i + 1` and `2i + 2`.
//! Level 0 is the leaf layer; the root is at level `levels`.

use vstd::prelude::*;
use crate::levels::two_pow;

verus! {

/// The allocation state of the run of blocks that a tree node covers.
#[derive(Clone, Copy, PartialEq, Eq, Structural, Debug)]
pub enum Node {
    /// Nothing in the run is handed out.
    Free,
    /// The run is handed out as a whole, or both halves are full.
    Full,
    /// The run is subdivided, and neither wholly free nor wholly full.
    Split,
}

/// The parent of node `i > 0`.
pub open spec fn parent(i: int) -> int {
    (i - 1) / 2
}

/// The state of a node whose children are in states `left` and `right`.
pub open spec fn combine(left: Node, right: Node) -> Node {
    if left == Node::Free && right == Node::Free {
        Node::Free
    } else if left == Node::Full && right == Node::Full {
        Node::Full
    } else {
        Node::Split
    }
}

/// The number of nodes of a tree with `levels + 1` layers.
pub open spec fn node_count(levels: nat) -> int {
    2 * two_pow(levels) - 1
}

/// The index of the first node of `level`.
pub open spec fn level_first(levels: nat, level: nat) -> int {
    two_pow((levels - level) as nat) - 1
}

/// Node `i` lies on `level`.
pub open spec fn on_level(levels: nat, level: nat, i: int) -> bool {
    level <= levels && level_first(levels, level) <= i < 2 * two_pow((levels - level) as nat) - 1
}

/// The first block that node `i` of `level` covers.
pub open spec fn block_of(levels: nat, level: nat, i: int) -> int {
    (i - level_first(levels, level)) * two_pow(level)
}

/// The node of `level` that covers `block`.
pub open spec fn node_of(levels: nat, level: nat, block: int) -> int {
    level_first(levels, level) + block / (two_pow(level) as int)
}

/// No proper ancestor of node `i` is full.
pub open spec fn path_open(tree: Seq<Node>, i: int) -> bool
    decreases i,
{
    i <= 0 || (tree[parent(i)] != Node::Full && path_open(tree, parent(i)))
}

/// Node `i` can be handed out: it is free and lies under no full node.
pub open spec fn available(tree: Seq<Node>, i: int) -> bool {
    0 <= i < tree.len() && tree[i] == Node::Free && path_open(tree, i)
}

/// Node `i` is the leftmost node of `level` that can be handed out.
pub open spec fn first_fit(tree: Seq<Node>, levels: nat, level: nat, i: int) -> bool {
    &&& on_level(levels, level, i)
    &&& available(tree, i)
    &&& forall|j: int| on_level(levels, level, j) && j < i ==> !available(tree, j)
}

/// No node of `level` can be handed out.
pub open spec fn no_fit(tree: Seq<Node>, levels: nat, level: nat) -> bool {
    forall|j: int| on_level(levels, level, j) ==> !available(tree, j)
}

/// The tree after the state of node `i`, and then of each of its ancestors
/// up to the root, is set from the states of its two children.
pub open spec fn refresh_up(tree: Seq<Node>, i: int) -> Seq<Node>
    decreases i,
{
    if i < 0 || 2 * i + 2 >= tree.len() {
        tree
    } else {
        let t = tree.update(i, combine(tree[2 * i + 1], tree[2 * i + 2]));
        if i == 0 {
            t
        } else {
            refresh_up(t, parent(i))
        }
    }
}

/// The sibling of node `i > 0`.
pub open spec fn buddy(i: int) -> int {
    if i % 2 == 1 {
        i + 1
    } else {
        i - 1
    }
}

/// The tree after node `i` is set free and, as long as the sibling of the
/// node just freed is free too, the parent is set free in turn.
pub open spec fn merge_up(tree: Seq<Node>, i: int) -> Seq<Node>
    decreases i,
{
    if i < 0 || i >= tree.len() {
        tree
    } else {
        let t = tree.update(i, Node::Free);
        if i > 0 && 0 <= buddy(i) < t.len() && t[buddy(i)] == Node::Free {
            merge_up(t, parent(i))
        } else {
            t
        }
    }
}

/// The tree after node `i` is handed out.
pub open spec fn claim_node(tree: Seq<Node>, i: int) -> Seq<Node> {
    if i == 0 {
        tree.update(0, Node::Full)
    } else {
        refresh_up(tree.update(i, Node::Full), parent(i))
    }
}

/// The tree after node `i` is given back.
pub open spec fn release_node(tree: Seq<Node>, i: int) -> Seq<Node> {
    if i == 0 {
        merge_up(tree, 0)
    } else {
        refresh_up(merge_up(tree, i), parent(i))
    }
}

/// The leftmost descendant of node `i`, `depth` layers below it.
pub open spec fn first_below(i: int, depth: nat) -> int
    decreases depth,
{
    if depth == 0 {
        i
    } else {
        first_below(2 * i + 1, (depth - 1) as nat)
    }
}

/// One past the rightmost descendant of node `i`, `depth` layers below it.
pub open spec fn past_below(i: int, depth: nat) -> int
    decreases depth,
{
    if depth == 0 {
        i + 1
    } else {
        past_below(2 * i + 2, (depth - 1) as nat)
    }
}

pub proof fn lemma_merge_up_len(tree: Seq<Node>, i: int)
    ensures
        merge_up(tree, i).len() == tree.len(),
    decreases i,
{
    if 0 <= i < tree.len() {
        let t = tree.update(i, Node::Free);
        if i > 0 && 0 <= buddy(i) < t.len() && t[buddy(i)] == Node::Free {
            lemma_merge_up_len(t, parent(i));
        }
    }
}

pub proof fn lemma_refresh_up_len(tree: Seq<Node>, i: int)
    ensures
        refresh_up(tree, i).len() == tree.len(),
    decreases i,
{
    if 0 <= i && 2 * i + 2 < tree.len() {
        let t = tree.update(i, combine(tree[2 * i + 1], tree[2 * i + 2]));
        if i > 0 {
            lemma_refresh_up_len(t, parent(i));
        }
    }
}

/// The descendants of a node, `depth` layers down, are those of its left
/// child followed by those of its right child.
pub proof fn lemma_below_bounds(i: int, depth: nat)
    ensures
        first_below(i, depth) < past_below(i, depth),
        first_below(i + 1, depth) == past_below(i, depth),
    decreases depth,
{
    if depth > 0 {
        lemma_below_bounds(2 * i + 1, (depth - 1) as nat);
        lemma_below_bounds(2 * i + 2, (depth - 1) as nat);
    }
}

/// The descendants of a node of `level`, `depth` layers down, lie on the
/// layer `level - depth`, and those of the first node start that layer.
pub proof fn lemma_below_on_level(levels: nat, level: nat, i: int, depth: nat)
    requires
        on_level(levels, level, i),
        depth <= level,
    ensures
        on_level(levels, (level - depth) as nat, first_below(i, depth)),
        on_level(levels, (level - depth) as nat, past_below(i, depth) - 1),
        i == level_first(levels, level) ==> first_below(i, depth) == level_first(
            levels,
            (level - depth) as nat,
        ),
        i == 2 * two_pow((levels - level) as nat) - 2 ==> past_below(i, depth) == 2 * two_pow(
            (levels - level + depth) as nat,
        ) - 1,
    decreases depth,
{
    if depth > 0 {
        assert(two_pow((levels - level + 1) as nat) == 2 * two_pow((levels - level) as nat));
        lemma_below_on_level(levels, (level - 1) as nat, 2 * i + 1, (depth - 1) as nat);
        lemma_below_on_level(levels, (level - 1) as nat, 2 * i + 2, (depth - 1) as nat);
    }
}

/// Under a node that is full, or that lies under a full node, nothing can
/// be handed out.
pub proof fn lemma_closed_below(tree: Seq<Node>, top: int, depth: nat, j: int)
    requires
        top >= 0,
        tree[top] == Node::Full || !path_open(tree, top),
        depth >= 1,
        first_below(top, depth) <= j < past_below(top, depth),
    ensures
        !path_open(tree, j),
    decreases depth,
{
    if depth == 1 {
        assert(first_below(top, 1) == first_below(2 * top + 1, 0));
        assert(past_below(top, 1) == past_below(2 * top + 2, 0));
        assert(parent(j) == top);
    } else {
        let left = 2 * top + 1;
        let right = 2 * top + 2;
        assert(parent(left) == top);
        assert(parent(right) == top);
        lemma_below_bounds(left, (depth - 1) as nat);
        if j < past_below(left, (depth - 1) as nat) {
            lemma_closed_below(tree, left, (depth - 1) as nat, j);
        } else {
            lemma_closed_below(tree, right, (depth - 1) as nat, j);
        }
    }
}

/// A node of a level is found again from the first block that it covers.
pub proof fn lemma_node_of_block(levels: nat, level: nat, i: int)
    requires
        on_level(levels, level, i),
    ensures
        node_of(levels, level, block_of(levels, level, i)) == i,
        0 <= block_of(levels, level, i),
        block_of(levels, level, i) % (two_pow(level) as int) == 0,
        block_of(levels, level, i) + two_pow(level) <= two_pow(levels),
{
    let q = i - level_first(levels, level);
    let m = two_pow(level) as int;
    let w = two_pow((levels - level) as nat) as int;
    crate::levels::lemma_two_pow_positive(level);
    crate::levels::lemma_two_pow_adds((levels - level) as nat, level);
    assert((q * m) / m == q && (q * m) % m == 0) by (nonlinear_arith)
        requires
            m > 0,
    ;
    assert(q * m >= 0 && q * m + m <= w * m) by (nonlinear_arith)
        requires
            0 <= q < w,
            m > 0,
    ;
}

/// The node that covers a block of the heap lies on its level.
pub proof fn lemma_node_of_on_level(levels: nat, level: nat, block: int)
    requires
        level <= levels,
        0 <= block < two_pow(levels),
    ensures
        on_level(levels, level, node_of(levels, level, block)),
{
    let m = two_pow(level) as int;
    let w = two_pow((levels - level) as nat) as int;
    crate::levels::lemma_two_pow_positive(level);
    crate::levels::lemma_two_pow_adds((levels - level) as nat, level);
    assert(0 <= block / m < w) by (nonlinear_arith)
        requires
            0 <= block < w * m,
            m > 0,
    ;
}

} // verus!
