//! The heap: the tree of node states, the table of live sizes, and the
//! operations that hand blocks out and take them back.

use vstd::prelude::*;
use fnv::FnvHashMap;
use crate::levels::{
    block_count, ceil_level, floor_log2, lemma_floor_log2_bounds,
    lemma_two_pow_monotonic, lemma_two_pow_positive, lemma_two_pow_strict, lemma_two_pow_values,
    level_for_size, level_of, pow2, two_pow, BLOCK_SIZE, MAX_LEVELS,
};
use crate::linkage::{entry_fits, key_of, lemma_claim_linked, lemma_release_linked, linked};
use crate::paths::node_ok;
use crate::totals::{
    lemma_sum_empty, lemma_sum_insert, lemma_sum_remove, lemma_sum_within_heap, table_sum,
};
use crate::table::{no_sizes, table_get, table_insert, table_new, table_remove};
use crate::tree::{
    available, block_of, buddy, claim_node, first_below, first_fit,
    lemma_below_bounds, lemma_below_on_level, lemma_closed_below, lemma_merge_up_len,
    lemma_node_of_block, lemma_node_of_on_level, lemma_refresh_up_len, merge_up,
    no_fit, node_count, node_of, on_level, parent, past_below, path_open, refresh_up,
    release_node, Node,
};

verus! {

/// A buddy allocation heap, which tracks allocations and deallocations
/// using a binary tree.
pub struct Heap {
    allocated_bytes: FnvHashMap<u32, u32>,
    levels: u32,
    tree: Vec<Node>,
    total_size: u32,
}

/// The tree of `levels + 1` layers in which every node is free.
pub open spec fn all_free(levels: nat) -> Seq<Node> {
    Seq::new(node_count(levels) as nat, |i: int| Node::Free)
}

/// What `allocate` does: with no fit, nothing and the handle zero; else
/// the leftmost node of the request's level that can be handed out is
/// handed out and recorded, and the handle is its byte offset plus one.
pub open spec fn allocation(before: Heap, size: u32, handle: u32, after: Heap) -> bool {
    &&& after.spec_levels() == before.spec_levels()
    &&& handle == 0 <==> !before.fits(size)
    &&& handle == 0 ==> before.same_state(after)
    &&& handle != 0 ==> {
        let node = before.node_of_handle(handle, size);
        let level = level_for_size(size as nat);
        &&& first_fit(before.nodes(), before.spec_levels(), level, node)
        &&& handle - 1 == block_of(before.spec_levels(), level, node) * BLOCK_SIZE
        &&& after.nodes() == claim_node(before.nodes(), node)
        &&& !before.sizes().contains_key((handle - 1) as u32)
        &&& after.sizes() == before.sizes().insert((handle - 1) as u32, size)
        &&& after.spec_total() == before.spec_total() + size
    }
}

/// What `deallocate` does: for a handle that names no live allocation,
/// nothing; else the node of the allocation is given back, its entry
/// dropped, and its size taken off the total.
pub open spec fn release(before: Heap, handle: u32, after: Heap) -> bool {
    &&& after.spec_levels() == before.spec_levels()
    &&& !before.is_live(handle) ==> before.same_state(after)
    &&& before.is_live(handle) ==> {
        let size = before.sizes()[(handle - 1) as u32];
        let node = before.node_of_handle(handle, size);
        &&& after.nodes() == release_node(before.nodes(), node)
        &&& after.sizes() == before.sizes().remove((handle - 1) as u32)
        &&& after.spec_total() + size == before.spec_total()
    }
}

impl Heap {
    /// Tree, table and total are those of `other`.
    pub open spec fn same_state(&self, other: Heap) -> bool {
        &&& other.spec_levels() == self.spec_levels()
        &&& other.nodes() == self.nodes()
        &&& other.sizes() == self.sizes()
        &&& other.spec_total() == self.spec_total()
    }

    /// The level of the root: the tree has `levels + 1` layers.
    pub closed spec fn spec_levels(&self) -> nat {
        self.levels as nat
    }

    /// The node states, in breadth-first order.
    pub closed spec fn nodes(&self) -> Seq<Node> {
        self.tree@
    }

    /// The live-size table: byte offset to requested size.
    pub closed spec fn sizes(&self) -> Map<u32, u32> {
        self.allocated_bytes@
    }

    /// The running total of requested sizes.
    pub closed spec fn spec_total(&self) -> nat {
        self.total_size as nat
    }

    /// The tree has the length that its depth asks for.
    pub open spec fn shaped(&self) -> bool {
        &&& self.spec_levels() <= MAX_LEVELS
        &&& self.nodes().len() == node_count(self.spec_levels())
    }

    /// The heap is well formed: tree and table describe the same
    /// allocations, and the running total is the sum of the live sizes.
    pub open spec fn wf(&self) -> bool {
        &&& linked(self.spec_levels(), self.nodes(), self.sizes())
        &&& self.spec_total() == table_sum(self.sizes(), two_pow(self.spec_levels()))
    }

    /// A request of `size` bytes can be served.
    pub open spec fn fits(&self, size: u32) -> bool {
        &&& level_for_size(size as nat) <= self.spec_levels()
        &&& !no_fit(self.nodes(), self.spec_levels(), level_for_size(size as nat))
    }

    /// The node that a request of `size` bytes is served from, given its handle.
    pub open spec fn node_of_handle(&self, handle: u32, size: u32) -> int {
        node_of(
            self.spec_levels(),
            level_for_size(size as nat),
            (handle - 1) / (BLOCK_SIZE as int),
        )
    }

    /// `handle` names a live allocation.
    pub open spec fn is_live(&self, handle: u32) -> bool {
        handle != 0 && self.sizes().contains_key((handle - 1) as u32)
    }

    /// The level of the root.
    pub fn levels(&self) -> (levels: u32)
        ensures
            levels == self.spec_levels(),
    {
        self.levels
    }

    /// The sum of the requested sizes of the live allocations.
    pub fn total_size(&self) -> (total: u32)
        ensures
            total == self.spec_total(),
    {
        self.total_size
    }

    /// Creates a new buddy allocation heap with a fixed size (in Bytes).
    pub fn new(reserved: u32) -> (heap: Heap)
        ensures
            heap.wf(),
            heap.spec_levels() == floor_log2((reserved / BLOCK_SIZE) as nat),
            heap.nodes() == all_free(heap.spec_levels()),
            heap.sizes() == no_sizes(),
            heap.spec_total() == 0,
    {
        let leaves: u32 = reserved / BLOCK_SIZE;
        let levels: u32 = Heap::get_tree_levels(leaves);
        proof {
            lemma_two_pow_values();
            if leaves >= 1 {
                lemma_floor_log2_bounds(leaves as nat);
                lemma_two_pow_strict(levels as nat, 19);
            }
            lemma_two_pow_monotonic(levels as nat, 18);
        }
        let node_count: usize = pow2(levels + 1) - 1;
        let tree: Vec<Node> = vec![Node::Free; node_count];
        let allocated_bytes = table_new();
        proof {
            assert(tree@ =~= all_free(levels as nat));
            assert forall|i: int| 0 <= i < tree@.len() implies #[trigger] node_ok(tree@, i) by {}
            assert forall|level: nat, i: int| #[trigger]
                on_level(levels as nat, level, i) implies tree@[i] == Node::Free by {
                lemma_two_pow_monotonic((levels - level) as nat, levels as nat);
            }
            lemma_sum_empty(allocated_bytes@, two_pow(levels as nat));
        }
        Heap { allocated_bytes, levels, tree, total_size: 0 }
    }

    /// Gets requested number of bytes to allocate and returns an index offset.
    /// The index offset starts at 0, and is returned plus one; zero says
    /// that nothing was allocated.
    pub fn allocate(&mut self, size: u32) -> (handle: u32)
        requires
            old(self).wf(),
        ensures
            final(self).wf(),
            allocation(*old(self), size, handle, *final(self)),
    {
        let ghost levels = self.levels as nat;
        let ghost level = level_for_size(size as nat);
        // Get the requested level from number of blocks requested
        let blocks_needed: u32 = block_count(size);
        let block_offset: usize = match self.allocate_block_in_tree(blocks_needed) {
            Some(v) => v,
            None => {
                return 0;
            },
        };
        proof {
            let node = node_of(levels, level, block_offset as int);
            let key = key_of(levels, level, node) as u32;
            lemma_node_of_block(levels, level, node);
            lemma_two_pow_monotonic(levels, 18);
            lemma_two_pow_positive(level);
            lemma_two_pow_values();
            lemma_claim_linked(levels, old(self).tree@, old(self).allocated_bytes@, level, node, size);
            lemma_sum_insert(old(self).allocated_bytes@, two_pow(levels), key, size);
            lemma_sum_within_heap(
                levels,
                claim_node(old(self).tree@, node),
                old(self).allocated_bytes@.insert(key, size),
            );
        }
        let ptr: u32 = BLOCK_SIZE * (block_offset as u32);
        assert(ptr as int / BLOCK_SIZE as int == block_offset);
        table_insert(&mut self.allocated_bytes, ptr, size);
        self.total_size = self.total_size + size;
        ptr + 1
    }

    /// Finds the leftmost free run of the level that holds `blocks_needed`
    /// blocks, hands it out, and returns its first block.
    fn allocate_block_in_tree(&mut self, blocks_needed: u32) -> (found: Option<usize>)
        requires
            old(self).shaped(),
        ensures
            final(self).levels == old(self).levels,
            final(self).allocated_bytes == old(self).allocated_bytes,
            final(self).total_size == old(self).total_size,
            final(self).shaped(),
            match found {
                None => {
                    &&& final(self).tree@ == old(self).tree@
                    &&& (level_of(blocks_needed as nat) > old(self).levels || no_fit(
                        old(self).tree@,
                        old(self).levels as nat,
                        level_of(blocks_needed as nat),
                    ))
                },
                Some(block) => {
                    let level = level_of(blocks_needed as nat);
                    let node = node_of(old(self).levels as nat, level, block as int);
                    &&& level <= old(self).levels
                    &&& first_fit(old(self).tree@, old(self).levels as nat, level, node)
                    &&& block == block_of(old(self).levels as nat, level, node)
                    &&& final(self).tree@ == claim_node(old(self).tree@, node)
                },
            },
    {
        let levels_needed: u32 = ceil_level(blocks_needed);
        if levels_needed > self.levels {
            return None;
        }
        let index: usize = match self.find_free_node(levels_needed) {
            Some(i) => i,
            None => {
                return None;
            },
        };
        proof {
            lemma_two_pow_monotonic(self.levels as nat, 18);
            lemma_two_pow_monotonic((self.levels - levels_needed) as nat, 18);
            lemma_two_pow_monotonic(levels_needed as nat, 18);
            lemma_two_pow_values();
            lemma_node_of_block(self.levels as nat, levels_needed as nat, index as int);
        }
        self.tree.set(index, Node::Full);
        if index > 0 {
            let parent: usize = Heap::get_parent_node_index(index);
            self.update_parent_nodes(parent);
            proof {
                lemma_refresh_up_len(old(self).tree@.update(index as int, Node::Full), parent as int);
            }
        }
        let current_level_offset: usize = pow2(self.levels - levels_needed) - 1;
        let level_offset: usize = index - current_level_offset;
        let block_offset: usize = level_offset * pow2(levels_needed);
        Some(block_offset)
    }

    /// Searches the tree, without changing it, for the leftmost node of
    /// `level` that is free and lies under no full node: down to the left
    /// while a node is free or split, sideways to the right sibling where a
    /// subtree has nothing to offer, and back up where there is no sibling.
    fn find_free_node(&self, level: u32) -> (found: Option<usize>)
        requires
            self.shaped(),
            level <= self.levels,
        ensures
            match found {
                Some(i) => first_fit(self.tree@, self.levels as nat, level as nat, i as int),
                None => no_fit(self.tree@, self.levels as nat, level as nat),
            },
    {
        let ghost levels = self.levels as nat;
        let ghost target = level as nat;
        let ghost tree = self.tree@;
        let ghost end = 2 * two_pow((levels - target) as nat) - 1;
        // Start at tree root and traverse down
        let mut index: usize = 0;
        let mut current_level: u32 = self.levels;
        proof {
            lemma_below_on_level(levels, levels, 0, (levels - target) as nat);
            lemma_two_pow_monotonic(levels, 18);
            lemma_two_pow_values();
        }
        loop
            invariant
                self.shaped(),
                levels == self.levels,
                target == level,
                tree == self.tree@,
                end == 2 * two_pow((levels - target) as nat) - 1,
                two_pow(levels) <= 262144,
                level <= current_level <= self.levels,
                on_level(levels, current_level as nat, index as int),
                path_open(tree, index as int),
                first_below(index as int, (current_level - level) as nat) < end,
                forall|j: int|
                    on_level(levels, target, j) && j < first_below(
                        index as int,
                        (current_level - level) as nat,
                    ) ==> !available(tree, j),
            decreases end - first_below(index as int, (current_level - level) as nat),
                current_level,
        {
            let ghost depth = (current_level - level) as nat;
            proof {
                lemma_below_on_level(levels, current_level as nat, index as int, depth);
                lemma_below_bounds(index as int, depth);
                lemma_two_pow_monotonic((levels - current_level) as nat, levels);
            }
            let node: Node = self.tree[index];
            if current_level == level && node == Node::Free {
                return Some(index);
            }
            if current_level > level && node != Node::Full {
                // The node is free or split: descend to its left child
                proof {
                    assert(two_pow((levels - current_level + 1) as nat) == 2 * two_pow(
                        (levels - current_level) as nat,
                    ));
                    assert(parent(2 * index + 1) == index);
                }
                index = index * 2 + 1;
                current_level = current_level - 1;
            } else {
                // Nothing under this node can be handed out
                let ghost past = past_below(index as int, depth);
                assert forall|j: int| on_level(levels, target, j) && j < past implies !available(
                    tree,
                    j,
                ) by {
                    if j >= first_below(index as int, depth) {
                        if depth > 0 {
                            lemma_closed_below(tree, index as int, depth, j);
                        }
                    }
                }
                // Backtrack to the nearest node that has a right sibling
                while index > 0 && index % 2 == 0
                    invariant
                        levels == self.levels,
                        level <= current_level <= self.levels,
                        on_level(levels, current_level as nat, index as int),
                        path_open(tree, index as int),
                        past_below(index as int, (current_level - level) as nat) == past,
                    decreases index,
                {
                    proof {
                        assert(current_level < levels) by {
                            if current_level == levels {
                                assert(two_pow(0) == 1);
                            }
                        }
                        assert(two_pow((levels - current_level) as nat) == 2 * two_pow(
                            (levels - current_level - 1) as nat,
                        ));
                        assert(2 * parent(index as int) + 2 == index);
                    }
                    index = Heap::get_parent_node_index(index);
                    current_level = current_level + 1;
                }
                if index == 0 {
                    proof {
                        assert(current_level == levels) by {
                            if current_level < levels {
                                lemma_two_pow_positive((levels - current_level - 1) as nat);
                                assert(two_pow((levels - current_level) as nat) == 2 * two_pow(
                                    (levels - current_level - 1) as nat,
                                ));
                            }
                        }
                        assert(two_pow(0) == 1);
                        lemma_below_on_level(levels, levels, 0, (levels - target) as nat);
                    }
                    return None;
                }
                proof {
                    lemma_two_pow_monotonic((levels - current_level) as nat, levels);
                    assert(parent(index + 1) == parent(index as int));
                    lemma_below_bounds(index as int, (current_level - level) as nat);
                    lemma_below_on_level(
                        levels,
                        current_level as nat,
                        index + 1,
                        (current_level - level) as nat,
                    );
                }
                index = index + 1;
            }
        }
    }

    /// Deallocates all blocks which were allocated for a pointer.
    /// A handle that names no live allocation changes nothing.
    pub fn deallocate(&mut self, handle: u32)
        requires
            old(self).wf(),
        ensures
            final(self).wf(),
            release(*old(self), handle, *final(self)),
    {
        if handle == 0 {
            return ;
        }
        let ptr: u32 = handle - 1;
        let allocated_size: u32 = match table_get(&self.allocated_bytes, &ptr) {
            Some(v) => *v,
            // If nothing has been allocated for the pointer nothing happens
            None => {
                return ;
            },
        };
        assert(self.sizes().contains_key(ptr));
        assert(entry_fits(self.levels as nat, ptr, allocated_size));
        let count_blocks: u32 = block_count(allocated_size);
        let block_offset: u32 = ptr / BLOCK_SIZE;
        proof {
            lemma_two_pow_positive(level_for_size(allocated_size as nat));
            lemma_release_linked(self.levels as nat, self.tree@, self.allocated_bytes@, ptr);
            lemma_sum_remove(self.allocated_bytes@, two_pow(self.levels as nat), ptr);
        }
        self.free(block_offset, count_blocks);
        table_remove(&mut self.allocated_bytes, ptr);
        self.total_size = self.total_size.checked_sub(allocated_size).unwrap_or(0);
    }

    /// Gives back the run of the level that holds `count_blocks` blocks and
    /// covers `block_offset`.
    fn free(&mut self, block_offset: u32, count_blocks: u32)
        requires
            old(self).shaped(),
            level_of(count_blocks as nat) <= old(self).levels,
            block_offset < two_pow(old(self).levels as nat),
        ensures
            final(self).levels == old(self).levels,
            final(self).allocated_bytes == old(self).allocated_bytes,
            final(self).total_size == old(self).total_size,
            final(self).shaped(),
            final(self).tree@ == release_node(
                old(self).tree@,
                node_of(
                    old(self).levels as nat,
                    level_of(count_blocks as nat),
                    block_offset as int,
                ),
            ),
    {
        let requested_level: u32 = ceil_level(count_blocks);
        proof {
            lemma_two_pow_monotonic(self.levels as nat, 18);
            lemma_two_pow_monotonic((self.levels - requested_level) as nat, 18);
            lemma_two_pow_monotonic(requested_level as nat, 18);
            lemma_two_pow_positive(requested_level as nat);
            lemma_two_pow_positive((self.levels - requested_level) as nat);
            lemma_two_pow_values();
            lemma_node_of_on_level(
                self.levels as nat,
                requested_level as nat,
                block_offset as int,
            );
            lemma_two_pow_monotonic((self.levels - requested_level) as nat, self.levels as nat);
        }
        let current_level_offset: usize = pow2(self.levels - requested_level) - 1;
        let level_offset: usize = block_offset as usize / pow2(requested_level);
        let index_offset: usize = current_level_offset + level_offset;

        self.free_and_merge(index_offset);
        proof {
            lemma_merge_up_len(old(self).tree@, index_offset as int);
        }
        if index_offset > 0 {
            let parent: usize = Heap::get_parent_node_index(index_offset);
            self.update_parent_nodes(parent);
            proof {
                lemma_refresh_up_len(merge_up(old(self).tree@, index_offset as int), parent as int);
            }
        }
    }

    /// The parent of a node that is not the root.
    fn get_parent_node_index(index: usize) -> (up: usize)
        requires
            0 < index < usize::MAX,
        ensures
            up == parent(index as int),
    {
        (index + 1) / 2 - 1
    }

    /// Sets a node free and, while the sibling of the node just freed is
    /// free too, goes on with the parent.
    fn free_and_merge(&mut self, index: usize)
        requires
            old(self).shaped(),
            index < old(self).tree.len(),
        ensures
            final(self).levels == old(self).levels,
            final(self).allocated_bytes == old(self).allocated_bytes,
            final(self).total_size == old(self).total_size,
            final(self).tree@ == merge_up(old(self).tree@, index as int),
    {
        let mut i: usize = index;
        proof {
            lemma_two_pow_monotonic(self.levels as nat, 18);
            lemma_two_pow_values();
        }
        loop
            invariant_except_break
                merge_up(self.tree@, i as int) == merge_up(old(self).tree@, index as int),
            invariant
                i < self.tree.len(),
                self.tree.len() == node_count(self.levels as nat),
                self.tree.len() < 524288,
                self.levels == old(self).levels,
                self.allocated_bytes == old(self).allocated_bytes,
                self.total_size == old(self).total_size,
            ensures
                self.tree@ == merge_up(old(self).tree@, index as int),
            decreases i,
        {
            self.tree.set(i, Node::Free);
            if i == 0 {
                break ;
            }
            let has_right_buddy: bool = i % 2 == 1;
            let other_node: usize = if has_right_buddy {
                i + 1
            } else {
                i - 1
            };
            if self.tree[other_node] != Node::Free {
                break ;
            }
            i = Heap::get_parent_node_index(i);
        }
    }

    /// Sets the state of a node, and then of each of its ancestors, from
    /// the states of its two children.
    fn update_parent_nodes(&mut self, index: usize)
        requires
            old(self).shaped(),
            2 * index + 2 < old(self).tree.len(),
        ensures
            final(self).levels == old(self).levels,
            final(self).allocated_bytes == old(self).allocated_bytes,
            final(self).total_size == old(self).total_size,
            final(self).tree@ == refresh_up(old(self).tree@, index as int),
    {
        let mut i: usize = index;
        proof {
            lemma_two_pow_monotonic(self.levels as nat, 18);
            lemma_two_pow_values();
        }
        loop
            invariant_except_break
                refresh_up(self.tree@, i as int) == refresh_up(old(self).tree@, index as int),
            invariant
                2 * i + 2 < self.tree.len(),
                self.tree.len() < 524288,
                self.levels == old(self).levels,
                self.allocated_bytes == old(self).allocated_bytes,
                self.total_size == old(self).total_size,
            ensures
                self.tree@ == refresh_up(old(self).tree@, index as int),
            decreases i,
        {
            let left_child: usize = i * 2 + 1;
            let right_child: usize = i * 2 + 2;
            let left: Node = self.tree[left_child];
            let right: Node = self.tree[right_child];
            let children_free: bool = left == Node::Free && right == Node::Free;
            let children_full: bool = left == Node::Full && right == Node::Full;
            if children_free {
                self.tree.set(i, Node::Free);
            } else if children_full {
                self.tree.set(i, Node::Full);
            } else {
                self.tree.set(i, Node::Split);
            }
            if i == 0 {
                // Tree root
                break ;
            }
            i = Heap::get_parent_node_index(i);
        }
    }

    /// The largest `k` with `2^k <= count_blocks`, and zero for no block.
    pub fn get_tree_levels(count_blocks: u32) -> (levels: u32)
        ensures
            levels == floor_log2(count_blocks as nat),
            levels <= 31,
    {
        if count_blocks == 0 {
            0
        } else {
            let mut rest: u32 = count_blocks;
            let mut counter: u32 = 0;
            proof {
                lemma_floor_log2_bounds(count_blocks as nat);
                lemma_two_pow_values();
                lemma_two_pow_strict(floor_log2(count_blocks as nat), 32);
            }
            while rest > 1
                invariant
                    counter + floor_log2(rest as nat) == floor_log2(count_blocks as nat),
                    floor_log2(count_blocks as nat) <= 31,
                decreases rest,
            {
                rest = rest / 2;
                counter = counter + 1;
            }
            counter
        }
    }
}

} // verus!
