//! Laws of the heap: what holds of every well-formed heap and of every
//! pair of calls, proved from the contracts and the well-formedness.

use vstd::prelude::*;
use crate::heap::{all_free, allocation, release, Heap};
use crate::levels::{
    blocks_for, floor_log2, lemma_floor_log2_bounds, lemma_level_of_bounds,
    lemma_level_of_monotonic, lemma_level_of_unique, lemma_two_pow_monotonic,
    lemma_two_pow_positive, level_for_size, level_of, two_pow, BLOCK_SIZE,
};
use crate::linkage::{
    lemma_claim_release_restores, lemma_empty_table_all_free, lemma_entries_apart,
};
use crate::table::no_sizes;
use crate::totals::lemma_sum_empty;
use crate::tree::{available, level_first, on_level, parent, path_open, Node};

verus! {

/// A heap of at least one block has as many levels as the base-two
/// logarithm of its whole blocks, rounded down; bytes beyond the last whole
/// block change nothing.
pub proof fn law_level_sizing(reserved: u32)
    requires
        reserved >= BLOCK_SIZE,
    ensures
        two_pow(floor_log2((reserved / BLOCK_SIZE) as nat)) <= reserved / BLOCK_SIZE,
        reserved / BLOCK_SIZE < two_pow(floor_log2((reserved / BLOCK_SIZE) as nat) + 1),
        floor_log2((((reserved - reserved % BLOCK_SIZE) as u32) / BLOCK_SIZE) as nat)
            == floor_log2((reserved / BLOCK_SIZE) as nat),
{
    lemma_floor_log2_bounds((reserved / BLOCK_SIZE) as nat);
}

/// A request fits the heap's deepest level exactly when it is no larger
/// than the whole heap; a larger one is refused, and `allocate` then
/// changes nothing.
pub proof fn law_capacity_bound(heap: Heap, size: u32)
    requires
        heap.wf(),
    ensures
        size > two_pow(heap.spec_levels()) * BLOCK_SIZE ==> !heap.fits(size),
        size <= two_pow(heap.spec_levels()) * BLOCK_SIZE ==> level_for_size(size as nat)
            <= heap.spec_levels(),
        size <= two_pow(heap.spec_levels()) * BLOCK_SIZE && heap.nodes() == all_free(
            heap.spec_levels(),
        ) ==> heap.fits(size),
{
    let levels = heap.spec_levels();
    let blocks = blocks_for(size as nat);
    let level = level_of(blocks);
    lemma_level_of_bounds(blocks);
    lemma_two_pow_positive(levels);
    if size > two_pow(levels) * BLOCK_SIZE {
        assert(blocks > two_pow(levels));
        if level <= levels {
            lemma_two_pow_monotonic(level, levels);
        }
    } else {
        assert(blocks <= two_pow(levels));
        lemma_level_of_bounds(two_pow(levels));
        if levels > 0 {
            assert(two_pow(levels) == 2 * two_pow((levels - 1) as nat));
            lemma_two_pow_positive((levels - 1) as nat);
        }
        lemma_level_of_unique(two_pow(levels), levels);
        lemma_level_of_monotonic(blocks, two_pow(levels));
        if heap.nodes() == all_free(levels) {
            let i = level_first(levels, level);
            lemma_two_pow_positive((levels - level) as nat);
            lemma_two_pow_monotonic((levels - level) as nat, levels);
            lemma_all_free_open(heap.nodes(), i);
            assert(on_level(levels, level, i) && available(heap.nodes(), i));
        }
    }
}

/// In a tree without a full node every path is open.
pub proof fn lemma_all_free_open(tree: Seq<Node>, i: int)
    requires
        0 <= i < tree.len(),
        forall|j: int| 0 <= j < tree.len() ==> tree[j] == Node::Free,
    ensures
        path_open(tree, i),
    decreases i,
{
    if i > 0 {
        lemma_all_free_open(tree, parent(i));
    }
}

/// Two live allocations never overlap: the byte ranges that start at
/// handle minus one and run for the requested size are apart.
pub proof fn law_live_ranges_apart(heap: Heap, first: u32, second: u32)
    requires
        heap.wf(),
        heap.is_live(first),
        heap.is_live(second),
        first != second,
    ensures
        (first - 1) + heap.sizes()[(first - 1) as u32] <= second - 1 || (second - 1)
            + heap.sizes()[(second - 1) as u32] <= first - 1,
{
    lemma_entries_apart(
        heap.spec_levels(),
        heap.nodes(),
        heap.sizes(),
        (first - 1) as u32,
        (second - 1) as u32,
    );
}

/// Once every live allocation is released, in whatever order, the table
/// is empty; then every node of the tree is free and the total is zero.
pub proof fn law_merge_completeness(heap: Heap)
    requires
        heap.wf(),
        heap.sizes() == no_sizes(),
    ensures
        heap.nodes() == all_free(heap.spec_levels()),
        heap.spec_total() == 0,
{
    let levels = heap.spec_levels();
    assert forall|i: int| 0 <= i < heap.nodes().len() implies heap.nodes()[i] == Node::Free by {
        lemma_empty_table_all_free(levels, heap.nodes(), heap.sizes(), i);
    }
    assert(heap.nodes() =~= all_free(levels));
    lemma_sum_empty(heap.sizes(), two_pow(levels));
}

/// An allocation followed by its release leaves the tree, the table and
/// the total as they were before the allocation.
pub proof fn law_round_trip(before: Heap, size: u32, handle: u32, between: Heap, after: Heap)
    requires
        before.wf(),
        allocation(before, size, handle, between),
        handle != 0,
        release(between, handle, after),
    ensures
        before.same_state(after),
{
    let key = (handle - 1) as u32;
    assert(between.sizes().contains_key(key));
    assert(after.sizes() =~= before.sizes());
    lemma_claim_release_restores(before.nodes(), before.node_of_handle(handle, size));
}

/// Releasing a handle that names no live allocation changes nothing; so
/// does releasing a handle a second time.
pub proof fn law_idempotent_release(before: Heap, handle: u32, after: Heap, again: Heap)
    requires
        before.wf(),
        release(before, handle, after),
        release(after, handle, again),
    ensures
        !before.is_live(handle) ==> before.same_state(after),
        after.same_state(again),
{
    if before.is_live(handle) {
        assert(!after.sizes().contains_key((handle - 1) as u32));
    }
}

} // verus!
