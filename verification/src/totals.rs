//! The sum of the live sizes, block by block, and its bound.

use vstd::prelude::*;
use crate::levels::{
    blocks_for, lemma_level_of_bounds, lemma_two_pow_monotonic, lemma_two_pow_positive,
    lemma_two_pow_values, level_for_size, two_pow, BLOCK_SIZE,
};
use crate::linkage::{
    entry_node, lemma_claimed_apart, lemma_entry_node, lemma_on_level_unique, linked,
};
use crate::tree::Node;

verus! {

/// The requested size of the allocation that starts at `block`, or zero.
pub open spec fn size_at(sizes: Map<u32, u32>, block: nat) -> nat {
    let key = block * BLOCK_SIZE;
    if key <= u32::MAX && sizes.contains_key(key as u32) {
        sizes[key as u32] as nat
    } else {
        0
    }
}

/// The sum of the requested sizes of the allocations that start before `blocks`.
pub open spec fn table_sum(sizes: Map<u32, u32>, blocks: nat) -> nat
    decreases blocks,
{
    if blocks == 0 {
        0
    } else {
        table_sum(sizes, (blocks - 1) as nat) + size_at(sizes, (blocks - 1) as nat)
    }
}

/// `size`, if the allocation at `key` starts before `blocks`, else zero.
pub open spec fn counted(key: u32, blocks: nat, size: u32) -> nat {
    if (key as int / BLOCK_SIZE as int) < (blocks as int) {
        size as nat
    } else {
        0
    }
}

pub proof fn lemma_sum_empty(sizes: Map<u32, u32>, blocks: nat)
    requires
        forall|offset: u32| !sizes.contains_key(offset),
    ensures
        table_sum(sizes, blocks) == 0,
    decreases blocks,
{
    if blocks > 0 {
        lemma_sum_empty(sizes, (blocks - 1) as nat);
    }
}

pub proof fn lemma_sum_insert(sizes: Map<u32, u32>, blocks: nat, key: u32, size: u32)
    requires
        key as int % BLOCK_SIZE as int == 0,
        !sizes.contains_key(key),
    ensures
        table_sum(sizes.insert(key, size), blocks) == table_sum(sizes, blocks) + counted(
            key,
            blocks,
            size,
        ),
    decreases blocks,
{
    if blocks > 0 {
        lemma_sum_insert(sizes, (blocks - 1) as nat, key, size);
    }
}

pub proof fn lemma_sum_remove(sizes: Map<u32, u32>, blocks: nat, key: u32)
    requires
        key as int % BLOCK_SIZE as int == 0,
        sizes.contains_key(key),
    ensures
        table_sum(sizes, blocks) == table_sum(sizes.remove(key), blocks) + counted(
            key,
            blocks,
            sizes[key],
        ),
    decreases blocks,
{
    if blocks > 0 {
        lemma_sum_remove(sizes, (blocks - 1) as nat, key);
    }
}

/// A request is no larger than the run of blocks that serves it.
pub proof fn lemma_size_within_run(size: u32)
    ensures
        size <= two_pow(level_for_size(size as nat)) * BLOCK_SIZE,
{
    lemma_level_of_bounds(blocks_for(size as nat));
}

/// The live sizes that start before `blocks` sum to no more than the bytes
/// up to the block `limit`, if each of those allocations ends by `limit`.
pub proof fn lemma_sum_bound(
    levels: nat,
    tree: Seq<Node>,
    sizes: Map<u32, u32>,
    blocks: nat,
    limit: nat,
)
    requires
        linked(levels, tree, sizes),
        blocks <= two_pow(levels),
        forall|offset: u32| #[trigger]
            sizes.contains_key(offset) && (offset as int / BLOCK_SIZE as int) < blocks
                ==> offset as int / BLOCK_SIZE as int + two_pow(
                level_for_size(sizes[offset] as nat),
            ) <= limit,
    ensures
        table_sum(sizes, blocks) <= limit * BLOCK_SIZE,
    decreases blocks,
{
    if blocks > 0 {
        let b = (blocks - 1) as nat;
        lemma_two_pow_monotonic(levels, 18);
        lemma_two_pow_values();
        let key = (b * BLOCK_SIZE) as u32;
        if sizes.contains_key(key) {
            let size = sizes[key];
            let level = level_for_size(size as nat);
            lemma_entry_node(levels, key, size);
            assert forall|offset: u32| #[trigger]
                sizes.contains_key(offset) && (offset as int / BLOCK_SIZE as int)
                    < b implies offset as int / BLOCK_SIZE as int + two_pow(
                level_for_size(sizes[offset] as nat),
            ) <= b by {
                let other = level_for_size(sizes[offset] as nat);
                lemma_entry_node(levels, offset, sizes[offset]);
                lemma_two_pow_positive(level);
                if entry_node(levels, offset, sizes[offset]) == entry_node(levels, key, size) {
                    lemma_on_level_unique(levels, level, other, entry_node(levels, key, size));
                }
                lemma_claimed_apart(
                    levels,
                    tree,
                    level,
                    entry_node(levels, key, size),
                    other,
                    entry_node(levels, offset, sizes[offset]),
                );
            }
            lemma_sum_bound(levels, tree, sizes, b, b);
            lemma_size_within_run(size);
            assert(b * BLOCK_SIZE + two_pow(level) * BLOCK_SIZE <= limit * BLOCK_SIZE)
                by (nonlinear_arith)
                requires
                    b + two_pow(level) <= limit,
            ;
        } else {
            lemma_sum_bound(levels, tree, sizes, b, limit);
        }
    }
}

/// The live sizes of a heap sum to no more than the heap holds.
pub proof fn lemma_sum_within_heap(levels: nat, tree: Seq<Node>, sizes: Map<u32, u32>)
    requires
        linked(levels, tree, sizes),
    ensures
        table_sum(sizes, two_pow(levels)) <= two_pow(levels) * BLOCK_SIZE,
        two_pow(levels) * BLOCK_SIZE <= 0x8000_0000,
{
    lemma_sum_bound(levels, tree, sizes, two_pow(levels), two_pow(levels));
    lemma_two_pow_monotonic(levels, 18);
    lemma_two_pow_values();
}

} // verus!
