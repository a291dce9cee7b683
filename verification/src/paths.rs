//! Ancestors and descendants in the implicit tree, and what a change at one
//! node, followed by the recomputation of its ancestors, leaves untouched.

use vstd::prelude::*;
use crate::levels::{lemma_two_pow_adds, lemma_two_pow_positive, two_pow};
use crate::tree::{
    block_of, buddy, claim_node, combine, first_below, lemma_merge_up_len,
    lemma_refresh_up_len, level_first, merge_up, on_level, parent, past_below, path_open,
    refresh_up, release_node, Node,
};

verus! {

/// Node `a` is node `i` or one of its ancestors.
pub open spec fn on_path(a: int, i: int) -> bool
    decreases i,
{
    a == i || (i > 0 && on_path(a, parent(i)))
}

/// Node `a` is a proper ancestor of node `i`.
pub open spec fn above(a: int, i: int) -> bool {
    i > 0 && on_path(a, parent(i))
}

/// Node `i` has no children.
pub open spec fn is_leaf(tree: Seq<Node>, i: int) -> bool {
    2 * i + 2 >= tree.len()
}

/// The state of node `i` agrees with the states of its children.
pub open spec fn node_ok(tree: Seq<Node>, i: int) -> bool {
    if is_leaf(tree, i) {
        tree[i] != Node::Split
    } else {
        let left = tree[2 * i + 1];
        let right = tree[2 * i + 2];
        match tree[i] {
            Node::Free => left == Node::Free && right == Node::Free,
            Node::Split => combine(left, right) == Node::Split,
            Node::Full => (left == Node::Full && right == Node::Full) || (left == Node::Free
                && right == Node::Free),
        }
    }
}

/// Every node agrees with its children.
pub open spec fn consistent(tree: Seq<Node>) -> bool {
    forall|i: int| 0 <= i < tree.len() ==> #[trigger] node_ok(tree, i)
}

/// Node `i` is handed out as a whole: it is full and nothing below it is.
pub open spec fn claimed(tree: Seq<Node>, i: int) -> bool {
    tree[i] == Node::Full && (is_leaf(tree, i) || tree[2 * i + 1] == Node::Free)
}

/// `after` is `before` with node `i` set to `state` and each proper
/// ancestor of `i` set from its children.
pub open spec fn repaired(before: Seq<Node>, after: Seq<Node>, i: int, state: Node) -> bool {
    &&& after.len() == before.len()
    &&& after[i] == state
    &&& forall|j: int|
        0 <= j < before.len() && j != i && !above(j, i) ==> #[trigger] after[j] == before[j]
    &&& forall|a: int| #[trigger]
        above(a, i) ==> after[a] == combine(after[2 * a + 1], after[2 * a + 2])
}

pub proof fn lemma_on_path_range(a: int, i: int)
    requires
        i >= 0,
        on_path(a, i),
    ensures
        0 <= a <= i,
    decreases i,
{
    if a != i {
        lemma_on_path_range(a, parent(i));
    }
}

pub proof fn lemma_on_path_parent(k: int, i: int)
    requires
        k > 0,
        i >= 0,
        on_path(k, i),
    ensures
        on_path(parent(k), i),
    decreases i,
{
    if k == i {
        assert(on_path(parent(i), parent(i)));
    } else {
        lemma_on_path_parent(k, parent(i));
    }
}

/// Under an open path no ancestor is full.
pub proof fn lemma_open_path_not_full(tree: Seq<Node>, a: int, i: int)
    requires
        i >= 0,
        path_open(tree, i),
        above(a, i),
    ensures
        tree[a] != Node::Full,
    decreases i,
{
    if a != parent(i) {
        lemma_open_path_not_full(tree, a, parent(i));
    }
}

/// Below a node that is free, or handed out as a whole, every node is free.
pub proof fn lemma_free_below(tree: Seq<Node>, a: int, i: int)
    requires
        consistent(tree),
        tree.len() % 2 == 1,
        0 <= i < tree.len(),
        above(a, i),
        tree[a] == Node::Free || claimed(tree, a),
    ensures
        tree[i] == Node::Free,
    decreases i,
{
    let p = parent(i);
    lemma_on_path_range(a, p);
    assert(node_ok(tree, p));
    assert(i == 2 * p + 1 || i == 2 * p + 2);
    if a != p {
        lemma_free_below(tree, a, p);
    } else {
        assert(node_ok(tree, a));
    }
}

/// What `refresh_up` changes: the nodes from `a` up to the root, each set
/// from its children.
pub proof fn lemma_refresh_up(tree: Seq<Node>, a: int)
    requires
        0 <= a,
        2 * a + 2 < tree.len(),
    ensures
        refresh_up(tree, a).len() == tree.len(),
        forall|j: int|
            0 <= j < tree.len() && !on_path(j, a) ==> #[trigger] refresh_up(tree, a)[j] == tree[j],
        forall|j: int| #[trigger]
            on_path(j, a) ==> refresh_up(tree, a)[j] == combine(
                refresh_up(tree, a)[2 * j + 1],
                refresh_up(tree, a)[2 * j + 2],
            ),
    decreases a,
{
    let r = refresh_up(tree, a);
    let t1 = tree.update(a, combine(tree[2 * a + 1], tree[2 * a + 2]));
    lemma_refresh_up_len(tree, a);
    if a > 0 {
        lemma_refresh_up(t1, parent(a));
        let r1 = refresh_up(t1, parent(a));
        assert(r == r1);
        assert forall|j: int| #[trigger] on_path(j, a) implies r[j] == combine(
            r[2 * j + 1],
            r[2 * j + 2],
        ) by {
            if j != a {
                assert(on_path(j, parent(a)));
                assert(r1[j] == combine(r1[2 * j + 1], r1[2 * j + 2]));
            }
            if j == a {
                if on_path(a, parent(a)) {
                    lemma_on_path_range(a, parent(a));
                }
                if on_path(2 * a + 1, parent(a)) {
                    lemma_on_path_range(2 * a + 1, parent(a));
                }
                if on_path(2 * a + 2, parent(a)) {
                    lemma_on_path_range(2 * a + 2, parent(a));
                }
                assert(r1[a] == t1[a]);
                assert(r1[2 * a + 1] == t1[2 * a + 1]);
                assert(r1[2 * a + 2] == t1[2 * a + 2]);
            }
        }
    } else {
        assert forall|j: int| #[trigger] on_path(j, a) implies r[j] == combine(
            r[2 * j + 1],
            r[2 * j + 2],
        ) by {
            assert(j == 0);
        }
    }
}

/// What `merge_up` changes: node `i` is free afterwards, and nothing off
/// the path from `i` to the root is touched.
pub proof fn lemma_merge_up(tree: Seq<Node>, i: int)
    requires
        0 <= i < tree.len(),
    ensures
        merge_up(tree, i).len() == tree.len(),
        merge_up(tree, i)[i] == Node::Free,
        forall|j: int|
            0 <= j < tree.len() && !on_path(j, i) ==> #[trigger] merge_up(tree, i)[j] == tree[j],
    decreases i,
{
    let t1 = tree.update(i, Node::Free);
    lemma_merge_up_len(tree, i);
    if i > 0 && 0 <= buddy(i) < t1.len() && t1[buddy(i)] == Node::Free {
        lemma_merge_up(t1, parent(i));
        if on_path(i, parent(i)) {
            lemma_on_path_range(i, parent(i));
        }
        assert(merge_up(tree, i)[i] == t1[i]);
    }
}

/// Handing node `i` out sets it full and recomputes its ancestors.
pub proof fn lemma_claim_repaired(tree: Seq<Node>, i: int)
    requires
        0 <= i < tree.len(),
        tree.len() % 2 == 1,
    ensures
        repaired(tree, claim_node(tree, i), i, Node::Full),
{
    let r = claim_node(tree, i);
    if i > 0 {
        let t1 = tree.update(i, Node::Full);
        lemma_refresh_up(t1, parent(i));
        if on_path(i, parent(i)) {
            lemma_on_path_range(i, parent(i));
        }
        assert(r[i] == t1[i]);
        assert forall|j: int| 0 <= j < tree.len() && j != i && !above(j, i) implies #[trigger] r[j]
            == tree[j] by {
            assert(r[j] == t1[j]);
        }
    }
}

/// Giving node `i` back sets it free and recomputes its ancestors.
pub proof fn lemma_release_repaired(tree: Seq<Node>, i: int)
    requires
        0 <= i < tree.len(),
        tree.len() % 2 == 1,
    ensures
        repaired(tree, release_node(tree, i), i, Node::Free),
{
    let r = release_node(tree, i);
    let m = merge_up(tree, i);
    lemma_merge_up(tree, i);
    if i > 0 {
        lemma_refresh_up(m, parent(i));
        if on_path(i, parent(i)) {
            lemma_on_path_range(i, parent(i));
        }
        assert(r[i] == m[i]);
        assert forall|j: int| 0 <= j < tree.len() && j != i && !above(j, i) implies #[trigger] r[j]
            == tree[j] by {
            assert(!on_path(j, i));
            assert(r[j] == m[j]);
            assert(m[j] == tree[j]);
        }
    }
}

/// A node that is neither `i` nor above it keeps its state, and so do its
/// children.
pub proof fn lemma_untouched(before: Seq<Node>, after: Seq<Node>, i: int, state: Node, j: int)
    requires
        repaired(before, after, i, state),
        0 <= i < before.len(),
        0 <= j < before.len(),
        j != i,
        !above(j, i),
    ensures
        after[j] == before[j],
        !is_leaf(before, j) ==> after[2 * j + 1] == before[2 * j + 1] && after[2 * j + 2]
            == before[2 * j + 2],
{
    if !is_leaf(before, j) {
        let left = 2 * j + 1;
        let right = 2 * j + 2;
        assert(parent(left) == j && parent(right) == j);
        if above(left, i) {
            lemma_on_path_parent(left, parent(i));
        }
        if above(right, i) {
            lemma_on_path_parent(right, parent(i));
        }
        assert(on_path(j, j));
        assert(after[left] == before[left]);
        assert(after[right] == before[right]);
    }
}

/// A repair keeps the tree consistent, if the new state of node `i` agrees
/// with the children of `i`.
pub proof fn lemma_repaired_consistent(before: Seq<Node>, after: Seq<Node>, i: int, state: Node)
    requires
        consistent(before),
        repaired(before, after, i, state),
        0 <= i < before.len(),
        before.len() % 2 == 1,
        node_ok(before.update(i, state), i),
    ensures
        consistent(after),
{
    assert forall|j: int| 0 <= j < after.len() implies #[trigger] node_ok(after, j) by {
        if j == i {
            if !is_leaf(before, i) {
                if above(2 * i + 1, i) {
                    lemma_on_path_range(2 * i + 1, parent(i));
                }
                if above(2 * i + 2, i) {
                    lemma_on_path_range(2 * i + 2, parent(i));
                }
                assert(after[2 * i + 1] == before[2 * i + 1]);
                assert(after[2 * i + 2] == before[2 * i + 2]);
            }
        } else if above(j, i) {
            lemma_on_path_range(j, parent(i));
        } else {
            lemma_untouched(before, after, i, state, j);
            assert(node_ok(before, j));
        }
    }
}

/// The descendants of node `i`, `depth` layers down, in closed form.
pub proof fn lemma_below_closed_form(i: int, depth: nat)
    ensures
        first_below(i, depth) == (i + 1) * two_pow(depth) - 1,
        past_below(i, depth) == (i + 2) * two_pow(depth) - 1,
    decreases depth,
{
    if depth > 0 {
        lemma_below_closed_form(2 * i + 1, (depth - 1) as nat);
        lemma_below_closed_form(2 * i + 2, (depth - 1) as nat);
        let h = two_pow((depth - 1) as nat) as int;
        assert((2 * i + 1 + 1) * h == (i + 1) * (2 * h)) by (nonlinear_arith);
        assert((2 * i + 2 + 2) * h == (i + 2) * (2 * h)) by (nonlinear_arith);
    } else {
        assert((i + 1) * 1 == i + 1) by (nonlinear_arith);
        assert((i + 2) * 1 == i + 2) by (nonlinear_arith);
    }
}

/// A node among the descendants of `top`, `depth` layers down, has `top`
/// on its path to the root.
pub proof fn lemma_below_on_path(top: int, depth: nat, i: int)
    requires
        top >= 0,
        first_below(top, depth) <= i < past_below(top, depth),
    ensures
        on_path(top, i),
        depth > 0 ==> i > top,
    decreases depth,
{
    if depth > 0 {
        lemma_below_closed_form(top, depth);
        lemma_below_closed_form(top, (depth - 1) as nat);
        let h = two_pow((depth - 1) as nat) as int;
        lemma_two_pow_positive((depth - 1) as nat);
        let p = parent(i);
        assert((top + 1) * h - 1 <= p < (top + 2) * h - 1 && i > top) by (nonlinear_arith)
            requires
                (top + 1) * (2 * h) - 1 <= i < (top + 2) * (2 * h) - 1,
                p == (i - 1) / 2,
                h >= 1,
                top >= 0,
        ;
        lemma_below_on_path(top, (depth - 1) as nat, p);
    }
}

/// Two nodes whose runs of blocks overlap: the one on the higher level has
/// the other among its descendants.
pub proof fn lemma_overlap_below(levels: nat, high: nat, a: int, low: nat, b: int)
    requires
        on_level(levels, high, a),
        on_level(levels, low, b),
        low <= high,
        block_of(levels, low, b) < block_of(levels, high, a) + two_pow(high),
        block_of(levels, high, a) < block_of(levels, low, b) + two_pow(low),
    ensures
        on_path(a, b),
        a == b <==> low == high,
{
    let depth = (high - low) as nat;
    let qa = a - level_first(levels, high);
    let qb = b - level_first(levels, low);
    let w = two_pow((levels - high) as nat) as int;
    let m = two_pow(low) as int;
    let d = two_pow(depth) as int;
    lemma_two_pow_positive(low);
    lemma_two_pow_positive(depth);
    lemma_two_pow_positive((levels - high) as nat);
    lemma_two_pow_adds(depth, low);
    lemma_two_pow_adds((levels - high) as nat, depth);
    lemma_below_closed_form(a, depth);
    assert(two_pow(high) == d * m);
    assert(two_pow((levels - low) as nat) == w * d);
    assert(qa * d <= qb < (qa + 1) * d) by (nonlinear_arith)
        requires
            qb * m < qa * (d * m) + d * m,
            qa * (d * m) < qb * m + m,
            m >= 1,
            d >= 1,
    ;
    assert((a + 1) * d - 1 == w * d - 1 + qa * d && (a + 2) * d - 1 == w * d - 1 + (qa + 1) * d)
        by (nonlinear_arith)
        requires
            a == w - 1 + qa,
    ;
    lemma_below_on_path(a, depth, b);
    if depth == 0 {
        assert(d == 1);
    }
}

} // verus!
