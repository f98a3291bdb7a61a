use buddy_memory::memory::buddy::{get_block_level, BuddyAllocator};
use buddy_memory::memory::Allocator;

#[test]
fn test_get_block_level() {
    let block_levels = 8;
    let block_count = 1 << (block_levels - 1);

    let index_to_level = {
        let mut index_to_level = Vec::with_capacity(2 * block_count - 1);

        let mut index = 0_usize;
        for level in 0..block_levels {
            for _ in 0..1 << level {
                index_to_level.push((index, level));
                index += 1;
            }
        }
        index_to_level
    };

    for (index, level) in index_to_level {
        assert!(get_block_level(index) == level);
    }
}

#[test]
fn buddy_test_coalescing() {
    let heap_size = 0x4000;
    let heap_start = 0x10000;

    let mut allocator = BuddyAllocator::new(heap_start, heap_size, 4);

    {
        let (small0, _) = allocator.allocate(allocator.block_size, 1);
        let (small1, _) = allocator.allocate(allocator.block_size, 1);
        let (_small2, _) = allocator.allocate(allocator.block_size, 1);

        allocator.dealloc(small0);
        allocator.dealloc(small1);

        let (medium0, _) = allocator.allocate(allocator.block_size >> 2, 1);

        assert!(small0 != medium0);
    }
}

#[test]
fn buddy_test_failed_allocation() {
    let heap_size = 0x4000;
    let heap_start = 0x10000;

    let mut allocator = BuddyAllocator::new(heap_start, heap_size, 4);

    {
        let (big0, _) = allocator.allocate(heap_size, 1);
        let (big1, _) = allocator.allocate(heap_size, 1);

        assert!(big1 == 0);

        allocator.dealloc(big0);
    }

    {
        for _ in 0..8 {
            let (_, s) = allocator.allocate(heap_size / 8, 1);
            println!("{s}");
            assert!(s == heap_size / 8);
        }
        let (_, s) = allocator.allocate(heap_size / 8, 1);
        assert!(s == 0);
    }
}

#[test]
fn buddy_counts_blocks_and_levels() {
    let allocator = BuddyAllocator::new(0x4000, 0x4000, 4);
    assert_eq!(allocator.get_block_count(), 8);
    assert_eq!(allocator.get_block_levels(), 4);
    assert_eq!(allocator.block_size, 0x800);
}

#[test]
fn buddy_coalesces_small_blocks_into_a_larger_one() {
    let base = 0x4000;
    let mut allocator = BuddyAllocator::new(base, 0x4000, 4);
    let (a, sa) = allocator.allocate(0x800, 1);
    let (b, sb) = allocator.allocate(0x800, 1);
    let (c, sc) = allocator.allocate(0x800, 1);
    assert_eq!((a, b, c), (base, base + 0x800, base + 0x1000));
    assert_eq!((sa, sb, sc), (0x800, 0x800, 0x800));
    allocator.dealloc(a);
    allocator.dealloc(b);
    let (m, sm) = allocator.allocate(0x1000, 1);
    assert_eq!((m, sm), (base, 0x1000));
    assert!(m + sm <= c || c + sc <= m);
}

#[test]
fn buddy_release_in_any_order_restores_the_whole_heap() {
    let base = 0x8000;
    let mut allocator = BuddyAllocator::new(base, 0x8000, 5);
    let mut held = Vec::new();
    for _ in 0..16 {
        let (p, s) = allocator.allocate(0x800, 8);
        assert_eq!(s, 0x800);
        assert_eq!(p % 0x800, 0);
        held.push(p);
    }
    assert_eq!(allocator.allocate(1, 1), (0, 0));
    for k in [3usize, 0, 7, 12, 1, 2, 15, 8, 9, 4, 5, 6, 10, 11, 13, 14] {
        allocator.dealloc(held[k]);
    }
    assert_eq!(allocator.allocate(0x8000, 1), (base, 0x8000));
}
