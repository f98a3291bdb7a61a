use buddy_memory::allocator::Allocator;
use buddy_memory::buddy_tree::BuddyTree;
use buddy_memory::memory::buddy::BuddyAllocator;
use buddy_memory::memory::Allocator as _;

#[test]
fn sizes_of_live_and_free_blocks_add_up_to_the_heap() {
    let mut allocator = BuddyAllocator::new(0x4000, 0x4000, 4);
    let mut live = 0;
    for request in [0x800usize, 0x1000, 0x700] {
        let (p, size) = allocator.allocate(request, 1);
        assert!(p != 0);
        live += size;
    }
    assert_eq!(live, 0x2000);
    // what is left is one block of 0x2000 bytes: the free blocks hold 0x4000 - live
    assert_eq!(allocator.allocate(0x2000, 1), (0x6000, 0x2000));
    assert_eq!(allocator.allocate(1, 1), (0, 0));
}

#[test]
fn live_allocations_do_not_overlap() {
    let mut allocator = BuddyAllocator::new(0x10000, 0x10000, 6);
    let mut regions: Vec<(usize, usize)> = Vec::new();
    for request in [0x800usize, 0x2000, 0x800, 0x1000, 0x4000, 0x800, 0x1800] {
        let (p, size) = allocator.allocate(request, 1);
        assert!(p != 0);
        assert!(size >= request);
        assert!(0x10000 <= p && p + size <= 0x20000);
        regions.push((p, size));
    }
    for a in 0..regions.len() {
        for b in a + 1..regions.len() {
            let (pa, sa) = regions[a];
            let (pb, sb) = regions[b];
            assert!(pa + sa <= pb || pb + sb <= pa);
        }
    }
}

#[test]
fn free_tree_bits_follow_the_blocks() {
    let mut allocator = Allocator::new(0x4000, 0x4000, 4);
    assert!(allocator.tree.is_marked_free(0));
    assert_eq!(allocator.allocate(0x800), (0x4000, 3, 7));
    // the block and everything above it are in use
    for index in [0usize, 1, 3, 7] {
        assert!(!allocator.tree.is_marked_free(index));
    }
    // the upper halves that the division left are free, with nothing set above them
    for index in [2usize, 4, 8] {
        assert!(allocator.tree.is_marked_free(index));
    }
    // a block inside a free block has its bit set, and so has the free block above it
    assert!(allocator.tree.is_marked_free(9));
    assert!(allocator.tree.is_marked_free(4));
    assert_eq!(allocator.allocate(0x4000), (0, u8::MAX, u16::MAX));
}

#[test]
fn release_joins_buddies_all_the_way_up() {
    let mut allocator = Allocator::new(0x4000, 0x4000, 4);
    let a = allocator.allocate(0x800);
    let b = allocator.allocate(0x800);
    let c = allocator.allocate(0x800);
    assert_eq!((a.2, b.2, c.2), (7, 8, 9));
    allocator.deallocate(a.0, a.1, a.2);
    // the buddy is live: the block stays on its own
    assert!(allocator.tree.is_marked_free(7));
    assert!(!allocator.tree.is_marked_free(3));
    allocator.deallocate(b.0, b.1, b.2);
    // both halves are free: they are one block of the level above, and no further
    assert!(allocator.tree.is_marked_free(3));
    assert!(!allocator.tree.is_marked_free(1));
    allocator.deallocate(c.0, c.1, c.2);
    // now everything joins up to the root
    assert!(allocator.tree.is_marked_free(0));
    assert_eq!(allocator.allocate(0x4000), (0x4000, 0, 0));
}

#[test]
fn single_large_block_exhausts_the_region() {
    let heap_size = 0x4000;
    let mut allocator = Allocator::new(0x4000, heap_size, 4);
    let first = allocator.allocate(heap_size);
    assert_eq!(first, (0x4000, 0, 0));
    assert_eq!(allocator.allocate(heap_size), (0, u8::MAX, u16::MAX));
    allocator.deallocate(first.0, first.1, first.2);
    assert_eq!(allocator.allocate(heap_size), (0x4000, 0, 0));
}

#[test]
fn tree_hands_out_cells_and_takes_them_back() {
    let mut tree = BuddyTree::new(3);
    assert_eq!(tree.level_count(), 3);
    assert_eq!(tree.allocate(2), Some((0, 3)));
    assert_eq!(tree.allocate(2), Some((1, 4)));
    assert_eq!(tree.allocate(1), Some((2, 2)));
    assert_eq!(tree.allocate(0), None);
    assert_eq!(tree.allocate(2), None);
    tree.deallocate(2, 1, 4);
    assert_eq!(tree.allocate(2), Some((1, 4)));
    tree.deallocate(1, 2, 2);
    tree.deallocate(2, 0, 3);
    tree.deallocate(2, 1, 4);
    assert_eq!(tree.allocate(0), Some((0, 0)));
}

#[test]
fn alternating_allocate_and_release_keeps_the_order_of_the_free_lists() {
    let mut allocator = Allocator::new(0x4000, 0x4000, 4);
    let a = allocator.allocate(0x800);
    let b = allocator.allocate(0x800);
    let c = allocator.allocate(0x800);
    let d = allocator.allocate(0x800);
    allocator.deallocate(a.0, a.1, a.2);
    allocator.deallocate(c.0, c.1, c.2);
    // free list of the last level: c, then a
    for _ in 0..3 {
        let x = allocator.allocate(0x800);
        assert_eq!(x, c);
        allocator.deallocate(x.0, x.1, x.2);
    }
    let x = allocator.allocate(0x800);
    let y = allocator.allocate(0x800);
    assert_eq!((x, y), (c, a));
    let _ = (b, d);
}

#[test]
fn free_list_records_link_the_blocks_of_a_level() {
    let mut tree = BuddyTree::new(4);
    assert_eq!(tree.free_list_head(0), Some(0));
    let a = tree.allocate(3).unwrap();
    let b = tree.allocate(3).unwrap();
    let c = tree.allocate(3).unwrap();
    assert_eq!((a, b, c), ((0, 7), (1, 8), (2, 9)));
    assert_eq!(tree.free_list_head(0), None);
    assert_eq!(tree.free_list_head(1), Some(4));
    assert_eq!(tree.free_list_head(2), None);
    assert_eq!(tree.free_list_head(3), Some(3));
    tree.deallocate(3, 0, 7);
    // the released block is the new head, before the block that was listed
    assert_eq!(tree.free_list_head(3), Some(0));
    let head = tree.free_list_record(0, 7);
    assert_eq!((head.free_tree_index, head.next, head.previous), (7, Some(3), None));
    let last = tree.free_list_record(3, 10);
    assert_eq!((last.free_tree_index, last.next, last.previous), (10, None, Some(0)));
    tree.deallocate(3, 2, 9);
    // 9 joins its buddy 10, which leaves the list: 7 is alone again
    assert_eq!(tree.free_list_head(3), Some(0));
    let head = tree.free_list_record(0, 7);
    assert_eq!((head.free_tree_index, head.next, head.previous), (7, None, None));
    assert_eq!(tree.free_list_head(2), Some(2));
    let joined = tree.free_list_record(2, 4);
    assert_eq!((joined.free_tree_index, joined.next, joined.previous), (4, None, None));
}

#[test]
fn unlinking_from_the_middle_of_a_list_joins_the_neighbours() {
    let mut tree = BuddyTree::new(4);
    let mut leaves = Vec::new();
    for _ in 0..8 {
        leaves.push(tree.allocate(3).unwrap());
    }
    // list of the last level after these releases: 13, 11, 9 (cells 6, 4, 2)
    tree.deallocate(3, 2, 9);
    tree.deallocate(3, 4, 11);
    tree.deallocate(3, 6, 13);
    assert_eq!(tree.free_list_head(3), Some(6));
    // releasing 12 takes its buddy 11 out of the middle
    tree.deallocate(3, 5, 12);
    let first = tree.free_list_record(6, 13);
    assert_eq!((first.next, first.previous), (Some(2), None));
    let second = tree.free_list_record(2, 9);
    assert_eq!((second.next, second.previous), (None, Some(6)));
    assert_eq!(tree.free_list_head(2), Some(4));
}
