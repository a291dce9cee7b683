//! What ties the tree to the live-size table, and the proofs that handing
//! a node out and giving it back keep the two tied.

use vstd::prelude::*;
use crate::levels::{
    blocks_for, lemma_level_of_bounds, lemma_two_pow_monotonic, lemma_two_pow_positive,
    lemma_two_pow_values, level_for_size, two_pow, BLOCK_SIZE, MAX_LEVELS,
};
use crate::paths::{
    above, claimed, consistent, is_leaf, lemma_claim_repaired, lemma_free_below,
    lemma_on_path_range, lemma_open_path_not_full, lemma_overlap_below, lemma_release_repaired,
    lemma_repaired_consistent, lemma_untouched, node_ok, repaired,
};
use crate::tree::{
    available, block_of, claim_node, lemma_node_of_block, lemma_node_of_on_level, node_count,
    node_of, on_level, release_node, Node,
};

verus! {

/// A table entry that a heap of `levels` can hold: the offset is that of a
/// run of blocks inside the heap, aligned to the run's own length.
pub open spec fn entry_fits(levels: nat, offset: u32, size: u32) -> bool {
    let level = level_for_size(size as nat);
    let block = offset as int / BLOCK_SIZE as int;
    &&& offset as int % BLOCK_SIZE as int == 0
    &&& level <= levels
    &&& block % (two_pow(level) as int) == 0
    &&& block + two_pow(level) <= two_pow(levels)
}

/// The node that the entry `offset -> size` was served from.
pub open spec fn entry_node(levels: nat, offset: u32, size: u32) -> int {
    node_of(levels, level_for_size(size as nat), offset as int / BLOCK_SIZE as int)
}

/// The byte offset of the run that node `i` of `level` covers.
pub open spec fn key_of(levels: nat, level: nat, i: int) -> int {
    block_of(levels, level, i) * BLOCK_SIZE
}

/// The table holds an entry for node `i` of `level`, of a size served at that level.
pub open spec fn recorded(sizes: Map<u32, u32>, levels: nat, level: nat, i: int) -> bool {
    let key = key_of(levels, level, i);
    &&& 0 <= key <= u32::MAX
    &&& sizes.contains_key(key as u32)
    &&& level_for_size(sizes[key as u32] as nat) == level
}

/// The tree and the table describe the same allocations: the tree is
/// consistent, every entry's node is handed out as a whole, and every node
/// handed out as a whole has its entry.
pub open spec fn linked(levels: nat, tree: Seq<Node>, sizes: Map<u32, u32>) -> bool {
    &&& levels <= MAX_LEVELS
    &&& tree.len() == node_count(levels)
    &&& consistent(tree)
    &&& forall|offset: u32| #[trigger]
        sizes.contains_key(offset) ==> entry_fits(levels, offset, sizes[offset]) && claimed(
            tree,
            entry_node(levels, offset, sizes[offset]),
        )
    &&& forall|level: nat, i: int| #[trigger]
        on_level(levels, level, i) && claimed(tree, i) ==> recorded(sizes, levels, level, i)
}

/// A node lies on one level only.
pub proof fn lemma_on_level_unique(levels: nat, first: nat, second: nat, i: int)
    requires
        on_level(levels, first, i),
        on_level(levels, second, i),
    ensures
        first == second,
{
    if first < second {
        lemma_two_pow_monotonic((levels - second + 1) as nat, (levels - first) as nat);
    }
    if second < first {
        lemma_two_pow_monotonic((levels - first + 1) as nat, (levels - second) as nat);
    }
}

/// The node of an entry lies on the entry's level and covers the entry's offset.
pub proof fn lemma_entry_node(levels: nat, offset: u32, size: u32)
    requires
        levels <= MAX_LEVELS,
        entry_fits(levels, offset, size),
    ensures
        on_level(levels, level_for_size(size as nat), entry_node(levels, offset, size)),
        block_of(levels, level_for_size(size as nat), entry_node(levels, offset, size))
            == offset as int / BLOCK_SIZE as int,
        key_of(levels, level_for_size(size as nat), entry_node(levels, offset, size)) == offset,
        entry_node(levels, offset, size) < node_count(levels),
{
    let level = level_for_size(size as nat);
    let block = offset as int / BLOCK_SIZE as int;
    let m = two_pow(level) as int;
    lemma_two_pow_positive(level);
    lemma_node_of_on_level(levels, level, block);
    lemma_two_pow_monotonic((levels - level) as nat, levels);
    assert((block / m) * m == block) by (nonlinear_arith)
        requires
            block % m == 0,
            m > 0,
    ;
}

/// The key of a node is a byte offset inside the heap.
pub proof fn lemma_key_of(levels: nat, level: nat, i: int)
    requires
        levels <= MAX_LEVELS,
        on_level(levels, level, i),
    ensures
        0 <= key_of(levels, level, i) < 0x8000_0000,
        key_of(levels, level, i) % BLOCK_SIZE as int == 0,
        key_of(levels, level, i) / BLOCK_SIZE as int == block_of(levels, level, i),
{
    lemma_node_of_block(levels, level, i);
    lemma_two_pow_positive(level);
    lemma_two_pow_monotonic(levels, 18);
    lemma_two_pow_values();
}

/// A node that can be handed out shares no block with a node that is
/// handed out, and is neither that node nor below it.
pub proof fn lemma_available_apart(
    levels: nat,
    tree: Seq<Node>,
    level: nat,
    i: int,
    other_level: nat,
    other: int,
)
    requires
        levels <= MAX_LEVELS,
        tree.len() == node_count(levels),
        consistent(tree),
        on_level(levels, level, i),
        available(tree, i),
        on_level(levels, other_level, other),
        claimed(tree, other),
    ensures
        other != i,
        !above(other, i),
        block_of(levels, level, i) + two_pow(level) <= block_of(levels, other_level, other)
            || block_of(levels, other_level, other) + two_pow(other_level) <= block_of(
            levels,
            level,
            i,
        ),
{
    lemma_two_pow_monotonic((levels - other_level) as nat, levels);
    if above(other, i) {
        lemma_open_path_not_full(tree, other, i);
    }
    if !(block_of(levels, level, i) + two_pow(level) <= block_of(levels, other_level, other)
        || block_of(levels, other_level, other) + two_pow(other_level) <= block_of(
        levels,
        level,
        i,
    )) {
        if other_level >= level {
            lemma_overlap_below(levels, other_level, other, level, i);
        } else {
            lemma_overlap_below(levels, level, i, other_level, other);
            lemma_free_below(tree, i, other);
        }
    }
}

/// Two different nodes that are handed out share no block, and neither is
/// below the other.
pub proof fn lemma_claimed_apart(
    levels: nat,
    tree: Seq<Node>,
    level: nat,
    i: int,
    other_level: nat,
    other: int,
)
    requires
        levels <= MAX_LEVELS,
        tree.len() == node_count(levels),
        consistent(tree),
        on_level(levels, level, i),
        claimed(tree, i),
        on_level(levels, other_level, other),
        claimed(tree, other),
        other != i,
    ensures
        !above(other, i),
        !above(i, other),
        block_of(levels, level, i) + two_pow(level) <= block_of(levels, other_level, other)
            || block_of(levels, other_level, other) + two_pow(other_level) <= block_of(
            levels,
            level,
            i,
        ),
{
    lemma_two_pow_monotonic((levels - other_level) as nat, levels);
    lemma_two_pow_monotonic((levels - level) as nat, levels);
    if above(other, i) {
        lemma_free_below(tree, other, i);
    }
    if above(i, other) {
        lemma_free_below(tree, i, other);
    }
    if !(block_of(levels, level, i) + two_pow(level) <= block_of(levels, other_level, other)
        || block_of(levels, other_level, other) + two_pow(other_level) <= block_of(
        levels,
        level,
        i,
    )) {
        if other_level >= level {
            lemma_overlap_below(levels, other_level, other, level, i);
        } else {
            lemma_overlap_below(levels, level, i, other_level, other);
        }
    }
}

/// A node that keeps its state and its children's keeps being handed out, or not.
pub proof fn lemma_untouched_claimed(
    before: Seq<Node>,
    after: Seq<Node>,
    i: int,
    state: Node,
    j: int,
)
    requires
        repaired(before, after, i, state),
        0 <= i < before.len(),
        0 <= j < before.len(),
        j != i,
        !above(j, i),
    ensures
        claimed(after, j) == claimed(before, j),
{
    lemma_untouched(before, after, i, state, j);
}

/// After a repair at node `i`, no node above `i` counts as handed out as a whole.
pub proof fn lemma_above_not_claimed(
    before: Seq<Node>,
    after: Seq<Node>,
    i: int,
    state: Node,
    a: int,
)
    requires
        repaired(before, after, i, state),
        0 <= i < before.len(),
        before.len() % 2 == 1,
        above(a, i),
    ensures
        !claimed(after, a),
{
    lemma_on_path_range(a, crate::tree::parent(i));
}

/// The children of node `i` are not touched by a repair at `i`.
pub proof fn lemma_children_kept(before: Seq<Node>, after: Seq<Node>, i: int, state: Node)
    requires
        repaired(before, after, i, state),
        0 <= i < before.len(),
        !is_leaf(before, i),
    ensures
        after[2 * i + 1] == before[2 * i + 1],
        after[2 * i + 2] == before[2 * i + 2],
{
    if above(2 * i + 1, i) {
        lemma_on_path_range(2 * i + 1, crate::tree::parent(i));
    }
    if above(2 * i + 2, i) {
        lemma_on_path_range(2 * i + 2, crate::tree::parent(i));
    }
}

/// Handing out a node that can be handed out, and recording it, keeps tree
/// and table tied; the node's offset was not in the table before.
pub proof fn lemma_claim_linked(
    levels: nat,
    tree: Seq<Node>,
    sizes: Map<u32, u32>,
    level: nat,
    i: int,
    size: u32,
)
    requires
        linked(levels, tree, sizes),
        on_level(levels, level, i),
        available(tree, i),
        level == level_for_size(size as nat),
    ensures
        0 <= key_of(levels, level, i) < 0x8000_0000,
        !sizes.contains_key(key_of(levels, level, i) as u32),
        linked(levels, claim_node(tree, i), sizes.insert(key_of(levels, level, i) as u32, size)),
{
    let key = key_of(levels, level, i) as u32;
    let after = claim_node(tree, i);
    let table = sizes.insert(key, size);
    lemma_key_of(levels, level, i);
    lemma_node_of_block(levels, level, i);
    lemma_claim_repaired(tree, i);
    assert(node_ok(tree, i));
    lemma_repaired_consistent(tree, after, i, Node::Full);
    if !is_leaf(tree, i) {
        lemma_children_kept(tree, after, i, Node::Full);
    }
    assert(claimed(after, i));
    if sizes.contains_key(key) {
        lemma_entry_node(levels, key, sizes[key]);
        lemma_available_apart(
            levels,
            tree,
            level,
            i,
            level_for_size(sizes[key] as nat),
            entry_node(levels, key, sizes[key]),
        );
        lemma_two_pow_positive(level);
        lemma_two_pow_positive(level_for_size(sizes[key] as nat));
        assert(false);
    }
    assert(entry_fits(levels, key, size));
    assert(entry_node(levels, key, size) == i);
    assert forall|offset: u32| #[trigger] table.contains_key(offset) implies entry_fits(
        levels,
        offset,
        table[offset],
    ) && claimed(after, entry_node(levels, offset, table[offset])) by {
        if offset != key {
            assert(sizes.contains_key(offset));
            let n = entry_node(levels, offset, sizes[offset]);
            lemma_entry_node(levels, offset, sizes[offset]);
            lemma_available_apart(levels, tree, level, i, level_for_size(sizes[offset] as nat), n);
            lemma_untouched_claimed(tree, after, i, Node::Full, n);
        }
    }
    assert forall|other_level: nat, j: int| #[trigger]
        on_level(levels, other_level, j) && claimed(after, j) implies recorded(
        table,
        levels,
        other_level,
        j,
    ) by {
        lemma_two_pow_monotonic((levels - other_level) as nat, levels);
        if j == i {
            lemma_on_level_unique(levels, level, other_level, i);
        } else if above(j, i) {
            lemma_above_not_claimed(tree, after, i, Node::Full, j);
        } else {
            lemma_untouched_claimed(tree, after, i, Node::Full, j);
            assert(recorded(sizes, levels, other_level, j));
        }
    }
}

/// Giving back the node of a table entry, and dropping the entry, keeps
/// tree and table tied.
pub proof fn lemma_release_linked(
    levels: nat,
    tree: Seq<Node>,
    sizes: Map<u32, u32>,
    offset: u32,
)
    requires
        linked(levels, tree, sizes),
        sizes.contains_key(offset),
    ensures
        linked(
            levels,
            release_node(tree, entry_node(levels, offset, sizes[offset])),
            sizes.remove(offset),
        ),
{
    let size = sizes[offset];
    let level = level_for_size(size as nat);
    let i = entry_node(levels, offset, size);
    let after = release_node(tree, i);
    let table = sizes.remove(offset);
    lemma_entry_node(levels, offset, size);
    lemma_release_repaired(tree, i);
    assert(node_ok(tree, i));
    lemma_repaired_consistent(tree, after, i, Node::Free);
    assert forall|other: u32| #[trigger] table.contains_key(other) implies entry_fits(
        levels,
        other,
        table[other],
    ) && claimed(after, entry_node(levels, other, table[other])) by {
        assert(sizes.contains_key(other));
        let n = entry_node(levels, other, sizes[other]);
        lemma_entry_node(levels, other, sizes[other]);
        if n == i {
            lemma_on_level_unique(levels, level, level_for_size(sizes[other] as nat), i);
            assert(false);
        }
        lemma_claimed_apart(levels, tree, level, i, level_for_size(sizes[other] as nat), n);
        lemma_untouched_claimed(tree, after, i, Node::Free, n);
    }
    assert forall|other_level: nat, j: int| #[trigger]
        on_level(levels, other_level, j) && claimed(after, j) implies recorded(
        table,
        levels,
        other_level,
        j,
    ) by {
        lemma_two_pow_monotonic((levels - other_level) as nat, levels);
        if j == i {
            assert(false);
        } else if above(j, i) {
            lemma_above_not_claimed(tree, after, i, Node::Free, j);
        } else {
            lemma_untouched_claimed(tree, after, i, Node::Free, j);
            assert(recorded(sizes, levels, other_level, j));
            if key_of(levels, other_level, j) == offset as int {
                lemma_node_of_block(levels, other_level, j);
                lemma_key_of(levels, other_level, j);
                assert(false);
            }
        }
    }
}

/// Every node of the tree lies on a level.
pub proof fn lemma_level_of_node(levels: nat, i: int) -> (level: nat)
    requires
        0 <= i < node_count(levels),
    ensures
        on_level(levels, level, i),
    decreases i,
{
    if i == 0 {
        assert(two_pow(0) == 1);
        levels
    } else {
        let up = lemma_level_of_node(levels, crate::tree::parent(i));
        if up == 0 {
            assert(false);
        }
        assert(two_pow((levels - up + 1) as nat) == 2 * two_pow((levels - up) as nat));
        (up - 1) as nat
    }
}

/// With nothing in the table, every node is free.
pub proof fn lemma_empty_table_all_free(
    levels: nat,
    tree: Seq<Node>,
    sizes: Map<u32, u32>,
    i: int,
)
    requires
        linked(levels, tree, sizes),
        forall|offset: u32| !sizes.contains_key(offset),
        0 <= i < tree.len(),
    ensures
        tree[i] == Node::Free,
    decreases tree.len() - i,
{
    if !is_leaf(tree, i) {
        lemma_empty_table_all_free(levels, tree, sizes, 2 * i + 1);
        lemma_empty_table_all_free(levels, tree, sizes, 2 * i + 2);
    }
    assert(node_ok(tree, i));
    if tree[i] == Node::Full {
        let level = lemma_level_of_node(levels, i);
        assert(recorded(sizes, levels, level, i));
    }
}

/// Two different entries of the table name byte ranges that do not overlap.
pub proof fn lemma_entries_apart(
    levels: nat,
    tree: Seq<Node>,
    sizes: Map<u32, u32>,
    first: u32,
    second: u32,
)
    requires
        linked(levels, tree, sizes),
        sizes.contains_key(first),
        sizes.contains_key(second),
        first != second,
    ensures
        first + sizes[first] <= second || second + sizes[second] <= first,
{
    let la = level_for_size(sizes[first] as nat);
    let lb = level_for_size(sizes[second] as nat);
    let na = entry_node(levels, first, sizes[first]);
    let nb = entry_node(levels, second, sizes[second]);
    let ba = first as int / BLOCK_SIZE as int;
    let bb = second as int / BLOCK_SIZE as int;
    lemma_entry_node(levels, first, sizes[first]);
    lemma_entry_node(levels, second, sizes[second]);
    if na == nb {
        lemma_on_level_unique(levels, la, lb, na);
        assert(false);
    }
    lemma_claimed_apart(levels, tree, la, na, lb, nb);
    lemma_level_of_bounds(blocks_for(sizes[first] as nat));
    lemma_level_of_bounds(blocks_for(sizes[second] as nat));
    let ra = two_pow(la) as int;
    let rb = two_pow(lb) as int;
    if ba + ra <= bb {
        assert(ba * 8192 + ra * 8192 <= bb * 8192) by (nonlinear_arith)
            requires
                ba + ra <= bb,
        ;
    } else {
        assert(bb * 8192 + rb * 8192 <= ba * 8192) by (nonlinear_arith)
            requires
                bb + rb <= ba,
        ;
    }
}

/// After node `i`, which could be handed out, is handed out and given
/// back, node `k` is in the state it was in before.
pub proof fn lemma_restored_at(
    tree: Seq<Node>,
    between: Seq<Node>,
    after: Seq<Node>,
    i: int,
    k: int,
)
    requires
        consistent(tree),
        tree.len() % 2 == 1,
        available(tree, i),
        repaired(tree, between, i, Node::Full),
        repaired(between, after, i, Node::Free),
        0 <= k < tree.len(),
    ensures
        after[k] == tree[k],
    decreases tree.len() - k,
{
    if k == i {
    } else if above(k, i) {
        lemma_on_path_range(k, crate::tree::parent(i));
        lemma_open_path_not_full(tree, k, i);
        lemma_restored_at(tree, between, after, i, 2 * k + 1);
        lemma_restored_at(tree, between, after, i, 2 * k + 2);
        assert(node_ok(tree, k));
    } else {
        assert(between[k] == tree[k]);
        assert(after[k] == between[k]);
    }
}

/// Handing a node out and giving it back leaves a consistent tree as it was.
pub proof fn lemma_claim_release_restores(tree: Seq<Node>, i: int)
    requires
        consistent(tree),
        tree.len() % 2 == 1,
        available(tree, i),
    ensures
        release_node(claim_node(tree, i), i) == tree,
{
    let between = claim_node(tree, i);
    let after = release_node(between, i);
    lemma_claim_repaired(tree, i);
    lemma_release_repaired(between, i);
    assert forall|k: int| 0 <= k < tree.len() implies after[k] == tree[k] by {
        lemma_restored_at(tree, between, after, i, k);
    }
    assert(after =~= tree);
}

} // verus!
