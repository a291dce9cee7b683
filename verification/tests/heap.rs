use buddy_heap::levels::{block_count, ceil_level, pow2};
use buddy_heap::Heap;
use buddy_heap::BLOCK_SIZE;

#[test]
fn first_pointer_should_be_one() {
    let mut heap = Heap::new(20);
    let ptr = heap.allocate(5);
    assert_eq!(ptr, 1);
}

#[test]
fn deallocation_for_nonexistent_pointer_should_not_panic() {
    let mut heap = Heap::new(20);
    let ret = heap.deallocate(5);
    assert_eq!(ret, ());
}

#[test]
fn should_calculate_tree_size_from_heap_size() {
    let heap_size = BLOCK_SIZE * 4;
    let heap = Heap::new(heap_size);

    assert_eq!(heap.levels(), 2);
}

#[test]
fn should_round_tree_size_to_nearest_possible() {
    let heap_size = BLOCK_SIZE * 4 + 1;
    let heap = Heap::new(heap_size);

    assert_eq!(heap.levels(), 2);
}

#[test]
fn heap_size_should_stay_zero_in_total() {
    let heap_size = BLOCK_SIZE * 4;
    let mut heap = Heap::new(heap_size);
    assert_eq!(heap.total_size(), 0);

    let ptr = heap.allocate(42);
    assert_eq!(heap.total_size(), 42);

    heap.deallocate(ptr);
    assert_eq!(heap.total_size(), 0);
}

#[test]
fn heap_size_should_stay_constant() {
    let heap_size = BLOCK_SIZE * 4;
    let mut heap = Heap::new(heap_size);
    for _ in 1..10 {
        assert_eq!(heap.total_size(), 0);

        let ptr = heap.allocate(42);
        assert_eq!(ptr, 1);
        assert_eq!(heap.total_size(), 42);

        heap.deallocate(ptr);
        assert_eq!(heap.total_size(), 0);
    }

    assert_eq!(heap.total_size(), 0);
}

#[test]
fn block_size_is_eight_kibibytes() {
    assert_eq!(BLOCK_SIZE, 8192);
}

#[test]
fn powers_of_two() {
    assert_eq!(pow2(0), 1);
    assert_eq!(pow2(1), 2);
    assert_eq!(pow2(10), 1024);
    assert_eq!(pow2(31), 2147483648);
}

#[test]
fn tree_levels_round_down() {
    assert_eq!(Heap::get_tree_levels(0), 0);
    assert_eq!(Heap::get_tree_levels(1), 0);
    assert_eq!(Heap::get_tree_levels(2), 1);
    assert_eq!(Heap::get_tree_levels(3), 1);
    assert_eq!(Heap::get_tree_levels(4), 2);
    assert_eq!(Heap::get_tree_levels(5), 2);
    assert_eq!(Heap::get_tree_levels(524287), 18);
    assert_eq!(Heap::get_tree_levels(u32::MAX), 31);
}

#[test]
fn request_levels_round_up() {
    assert_eq!(ceil_level(0), 0);
    assert_eq!(ceil_level(1), 0);
    assert_eq!(ceil_level(2), 1);
    assert_eq!(ceil_level(3), 2);
    assert_eq!(ceil_level(4), 2);
    assert_eq!(ceil_level(5), 3);
    assert_eq!(ceil_level(524288), 19);
    assert_eq!(ceil_level(u32::MAX), 32);
}

#[test]
fn block_counts_round_up() {
    assert_eq!(block_count(0), 0);
    assert_eq!(block_count(1), 1);
    assert_eq!(block_count(8192), 1);
    assert_eq!(block_count(8193), 2);
    assert_eq!(block_count(u32::MAX), 524288);
}

#[test]
fn levels_of_large_and_small_heaps() {
    assert_eq!(Heap::new(0).levels(), 0);
    assert_eq!(Heap::new(BLOCK_SIZE).levels(), 0);
    assert_eq!(Heap::new(BLOCK_SIZE * 2).levels(), 1);
    assert_eq!(Heap::new(BLOCK_SIZE * 7).levels(), 2);
    assert_eq!(Heap::new(BLOCK_SIZE * 8 - 1).levels(), 2);
    assert_eq!(Heap::new(u32::MAX).levels(), 18);
}

#[test]
fn remainder_bytes_do_not_count() {
    let whole = Heap::new(BLOCK_SIZE * 6);
    let ragged = Heap::new(BLOCK_SIZE * 6 + 8191);
    assert_eq!(whole.levels(), ragged.levels());
    assert_eq!(ragged.levels(), 2);
}

#[test]
fn leaves_are_handed_out_left_to_right() {
    let mut heap = Heap::new(BLOCK_SIZE * 4);
    assert_eq!(heap.allocate(42), 1);
    assert_eq!(heap.allocate(42), BLOCK_SIZE + 1);
    assert_eq!(heap.allocate(42), 2 * BLOCK_SIZE + 1);
    assert_eq!(heap.allocate(42), 3 * BLOCK_SIZE + 1);
    assert_eq!(heap.total_size(), 168);
    assert_eq!(heap.allocate(42), 0);
    assert_eq!(heap.total_size(), 168);
}

#[test]
fn zero_bytes_take_one_block() {
    let mut heap = Heap::new(BLOCK_SIZE * 2);
    assert_eq!(heap.allocate(0), 1);
    assert_eq!(heap.allocate(0), BLOCK_SIZE + 1);
    assert_eq!(heap.allocate(0), 0);
    assert_eq!(heap.total_size(), 0);
}

#[test]
fn whole_heap_can_be_taken_and_returned() {
    let mut heap = Heap::new(BLOCK_SIZE * 4);
    let all = heap.allocate(BLOCK_SIZE * 4);
    assert_eq!(all, 1);
    assert_eq!(heap.total_size(), BLOCK_SIZE * 4);
    assert_eq!(heap.allocate(1), 0);
    heap.deallocate(all);
    assert_eq!(heap.total_size(), 0);
    assert_eq!(heap.allocate(1), 1);
}

#[test]
fn request_above_capacity_fails_and_changes_nothing() {
    let mut heap = Heap::new(BLOCK_SIZE * 4);
    assert_eq!(heap.allocate(BLOCK_SIZE * 4 + 1), 0);
    assert_eq!(heap.allocate(u32::MAX), 0);
    assert_eq!(heap.total_size(), 0);
    assert_eq!(heap.allocate(BLOCK_SIZE * 4), 1);
}

#[test]
fn failed_search_leaves_the_tree_as_it_was() {
    let mut heap = Heap::new(BLOCK_SIZE * 4);
    assert_eq!(heap.allocate(1), 1);
    assert_eq!(heap.allocate(BLOCK_SIZE + 1), 2 * BLOCK_SIZE + 1);
    assert_eq!(heap.allocate(BLOCK_SIZE * 2), 0);
    assert_eq!(heap.total_size(), BLOCK_SIZE + 2);
    assert_eq!(heap.allocate(1), BLOCK_SIZE + 1);
    assert_eq!(heap.allocate(1), 0);
}

#[test]
fn two_block_runs_are_aligned() {
    let mut heap = Heap::new(BLOCK_SIZE * 8);
    assert_eq!(heap.allocate(1), 1);
    assert_eq!(heap.allocate(BLOCK_SIZE * 2), 2 * BLOCK_SIZE + 1);
    assert_eq!(heap.allocate(BLOCK_SIZE * 3), 4 * BLOCK_SIZE + 1);
    assert_eq!(heap.allocate(1), BLOCK_SIZE + 1);
    assert_eq!(heap.allocate(1), 0);
}

#[test]
fn live_ranges_do_not_overlap() {
    let mut heap = Heap::new(BLOCK_SIZE * 8);
    let sizes: [u32; 4] = [BLOCK_SIZE * 2, 100, BLOCK_SIZE + 1, 8192];
    let mut live: Vec<(u32, u32)> = Vec::new();
    for size in sizes {
        let handle = heap.allocate(size);
        assert!(handle >= 1);
        live.push((handle - 1, size));
    }
    for a in 0..live.len() {
        for b in 0..live.len() {
            if a != b {
                let (start_a, size_a) = live[a];
                let (start_b, size_b) = live[b];
                assert!(start_a + size_a <= start_b || start_b + size_b <= start_a);
            }
        }
    }
}

#[test]
fn freed_buddies_merge_again() {
    let mut heap = Heap::new(BLOCK_SIZE * 4);
    let a = heap.allocate(1);
    let b = heap.allocate(1);
    let c = heap.allocate(1);
    let d = heap.allocate(1);
    assert_eq!(heap.allocate(BLOCK_SIZE * 2), 0);
    heap.deallocate(c);
    heap.deallocate(a);
    assert_eq!(heap.allocate(BLOCK_SIZE * 2), 0);
    heap.deallocate(d);
    assert_eq!(heap.allocate(BLOCK_SIZE * 2), 2 * BLOCK_SIZE + 1);
    heap.deallocate(b);
    assert_eq!(heap.allocate(BLOCK_SIZE * 2), 1);
}

#[test]
fn releasing_everything_frees_the_whole_tree() {
    let mut heap = Heap::new(BLOCK_SIZE * 8);
    let a = heap.allocate(BLOCK_SIZE * 2);
    let b = heap.allocate(7);
    let c = heap.allocate(BLOCK_SIZE * 4);
    let d = heap.allocate(BLOCK_SIZE);
    assert!(a != 0 && b != 0 && c != 0 && d != 0);
    heap.deallocate(b);
    heap.deallocate(d);
    heap.deallocate(a);
    heap.deallocate(c);
    assert_eq!(heap.total_size(), 0);
    assert_eq!(heap.allocate(BLOCK_SIZE * 8), 1);
}

#[test]
fn second_release_of_a_handle_changes_nothing() {
    let mut heap = Heap::new(BLOCK_SIZE * 4);
    let a = heap.allocate(10);
    let b = heap.allocate(20);
    assert_eq!(heap.total_size(), 30);
    heap.deallocate(a);
    assert_eq!(heap.total_size(), 20);
    heap.deallocate(a);
    assert_eq!(heap.total_size(), 20);
    assert_eq!(heap.allocate(30), a);
    assert_eq!(heap.total_size(), 50);
    heap.deallocate(b);
    assert_eq!(heap.total_size(), 30);
}

#[test]
fn unknown_handles_are_ignored() {
    let mut heap = Heap::new(BLOCK_SIZE * 4);
    let a = heap.allocate(10);
    heap.deallocate(0);
    heap.deallocate(a + 1);
    heap.deallocate(BLOCK_SIZE + 1);
    heap.deallocate(u32::MAX);
    assert_eq!(heap.total_size(), 10);
    assert_eq!(heap.allocate(10), BLOCK_SIZE + 1);
}

#[test]
fn heap_below_one_block_has_one_block() {
    let mut heap = Heap::new(20);
    assert_eq!(heap.levels(), 0);
    assert_eq!(heap.allocate(5), 1);
    assert_eq!(heap.allocate(5), 0);
    heap.deallocate(1);
    assert_eq!(heap.total_size(), 0);
    assert_eq!(heap.allocate(BLOCK_SIZE), 1);
    assert_eq!(heap.allocate(BLOCK_SIZE + 1), 0);
}

#[test]
fn total_counts_requested_bytes_not_blocks() {
    let mut heap = Heap::new(BLOCK_SIZE * 4);
    let a = heap.allocate(BLOCK_SIZE + 1);
    assert_eq!(heap.total_size(), BLOCK_SIZE + 1);
    let b = heap.allocate(3);
    assert_eq!(heap.total_size(), BLOCK_SIZE + 4);
    heap.deallocate(a);
    assert_eq!(heap.total_size(), 3);
    heap.deallocate(b);
    assert_eq!(heap.total_size(), 0);
}

#[test]
fn largest_heap_holds_two_gibibytes() {
    let mut heap = Heap::new(u32::MAX);
    assert_eq!(heap.levels(), 18);
    assert_eq!(heap.allocate(0x8000_0001), 0);
    assert_eq!(heap.allocate(0x8000_0000), 1);
    assert_eq!(heap.total_size(), 0x8000_0000);
    assert_eq!(heap.allocate(0), 0);
    heap.deallocate(1);
    assert_eq!(heap.total_size(), 0);
    assert_eq!(heap.allocate(0x4000_0000), 1);
    assert_eq!(heap.allocate(0x4000_0000), 0x4000_0001);
    assert_eq!(heap.total_size(), 0x8000_0000);
}

#[test]
fn release_then_allocate_reuses_the_leftmost_run() {
    let mut heap = Heap::new(BLOCK_SIZE * 8);
    let a = heap.allocate(BLOCK_SIZE);
    let b = heap.allocate(BLOCK_SIZE);
    let c = heap.allocate(BLOCK_SIZE * 2);
    assert_eq!((a, b, c), (1, BLOCK_SIZE + 1, 2 * BLOCK_SIZE + 1));
    heap.deallocate(b);
    assert_eq!(heap.allocate(BLOCK_SIZE * 2), 4 * BLOCK_SIZE + 1);
    assert_eq!(heap.allocate(1), BLOCK_SIZE + 1);
    heap.deallocate(a);
    heap.deallocate(c);
    assert_eq!(heap.allocate(BLOCK_SIZE * 2), 2 * BLOCK_SIZE + 1);
    assert_eq!(heap.allocate(BLOCK_SIZE * 2), 6 * BLOCK_SIZE + 1);
    assert_eq!(heap.allocate(BLOCK_SIZE), 1);
    assert_eq!(heap.allocate(BLOCK_SIZE), 0);
}

#[test]
fn handles_are_zero_or_offset_plus_one() {
    let mut heap = Heap::new(BLOCK_SIZE * 16);
    let mut served = 0;
    for _ in 0..20 {
        let handle = heap.allocate(BLOCK_SIZE);
        if handle != 0 {
            assert_eq!((handle - 1) % BLOCK_SIZE, 0);
            assert_eq!(handle - 1, served * BLOCK_SIZE);
            served += 1;
        }
    }
    assert_eq!(served, 16);
    assert_eq!(heap.total_size(), 16 * BLOCK_SIZE);
}
