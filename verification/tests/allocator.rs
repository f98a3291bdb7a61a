use buddy_memory::allocator::Allocator;

#[test]
fn allocator_test_coalescing() {
    let heap_size = 0x4000;
    let heap_start = 0x10000;

    let mut allocator = Allocator::new(heap_start, heap_size, 4);

    {
        let (small0, s0, fs0) = allocator.allocate(allocator.get_block_size() as usize);
        let (small1, s1, fs1) = allocator.allocate(allocator.get_block_size() as usize);
        let (_small2, _s2, _fs2) = allocator.allocate(allocator.get_block_size() as usize);

        allocator.deallocate(small0, s0, fs0);
        allocator.deallocate(small1, s1, fs1);

        let (medium0, _, _) = allocator.allocate((allocator.get_block_size() >> 2) as usize);

        assert!(small0 != medium0);
    }
}

#[test]
fn allocator_test_failed_allocation() {
    let heap_size = 0x4000;
    let heap_start = 0x10000;

    let mut allocator = Allocator::new(heap_start, heap_size, 4);

    {
        let (big0, b0, fb0) = allocator.allocate(heap_size);
        let (big1, _, _) = allocator.allocate(heap_size);

        assert!(big1 == 0);

        allocator.deallocate(big0, b0, fb0);
    }

    {
        for _ in 0..8 {
            allocator.allocate(heap_size / 8);
        }
        let (a, _, _) = allocator.allocate(heap_size / 8);
        assert!(a == 0);
    }
}

#[test]
fn allocator_with_one_level_serves_one_allocation_at_a_time() {
    let mut allocator = Allocator::new(0x1000, 0x1000, 1);
    assert_eq!(allocator.get_block_levels(), 1);
    assert_eq!(allocator.get_block_size(), 0x1000);
    let first = allocator.allocate(1);
    assert_eq!(first, (0x1000, 0, 0));
    assert_eq!(allocator.allocate(1), (0, u8::MAX, u16::MAX));
    allocator.deallocate(first.0, first.1, first.2);
    assert_eq!(allocator.allocate(0x1000), (0x1000, 0, 0));
}

#[test]
fn allocator_request_of_half_the_region_is_a_level_one_block() {
    let mut allocator = Allocator::new(0x4000, 0x4000, 4);
    assert_eq!(allocator.allocate(0x2000), (0x4000, 1, 1));
    assert_eq!(allocator.allocate(0x2000), (0x6000, 1, 2));
    assert_eq!(allocator.allocate(0x2000), (0, u8::MAX, u16::MAX));
}

#[test]
fn allocator_request_larger_than_the_region_fails() {
    let mut allocator = Allocator::new(0x4000, 0x4000, 4);
    assert_eq!(allocator.allocate(0x4001), (0, u8::MAX, u16::MAX));
    assert_eq!(allocator.allocate(0x4000), (0x4000, 0, 0));
}

#[test]
fn allocator_request_of_zero_bytes_is_a_smallest_block() {
    let mut allocator = Allocator::new(0x4000, 0x4000, 4);
    assert_eq!(allocator.allocate(0), (0x4000, 3, 7));
    assert_eq!(allocator.allocate(1), (0x4800, 3, 8));
}

#[test]
fn allocator_rounds_requests_up_to_the_block_size() {
    let mut allocator = Allocator::new(0x4000, 0x4000, 4);
    assert_eq!(allocator.allocate(0x801), (0x4000, 2, 3));
    assert_eq!(allocator.allocate(0x1001), (0x6000, 1, 2));
    assert_eq!(allocator.allocate(0x800), (0x5000, 3, 9));
}

#[test]
fn allocator_takes_the_smallest_free_block_that_fits() {
    let mut allocator = Allocator::new(0x4000, 0x4000, 4);
    let a = allocator.allocate(0x800);
    assert_eq!(a, (0x4000, 3, 7));
    // free: 8 (level 3), 4 (level 2), 2 (level 1)
    assert_eq!(allocator.allocate(0x1000), (0x5000, 2, 4));
    assert_eq!(allocator.allocate(0x800), (0x4800, 3, 8));
    assert_eq!(allocator.allocate(0x800), (0x6000, 3, 11));
}

#[test]
fn allocator_alternating_allocate_and_deallocate_repeats_itself() {
    let mut allocator = Allocator::new(0x4000, 0x4000, 4);
    let keep = allocator.allocate(0x800);
    let first = allocator.allocate(0x1000);
    allocator.deallocate(first.0, first.1, first.2);
    for _ in 0..4 {
        let again = allocator.allocate(0x1000);
        assert_eq!(again, first);
        allocator.deallocate(again.0, again.1, again.2);
    }
    allocator.deallocate(keep.0, keep.1, keep.2);
    assert_eq!(allocator.allocate(0x4000), (0x4000, 0, 0));
}

#[test]
fn allocator_exhausts_the_finest_level() {
    let heap_size = 0x4000;
    let mut allocator = Allocator::new(0x4000, heap_size, 4);
    let mut seen = Vec::new();
    for k in 0..8 {
        let (p, level, _) = allocator.allocate(heap_size / 8);
        assert_eq!(level, 3);
        assert_eq!(p, 0x4000 + k * 0x800);
        seen.push(p);
    }
    assert_eq!(allocator.allocate(heap_size / 8), (0, u8::MAX, u16::MAX));
}

#[test]
fn allocator_pointers_are_aligned_to_their_block_size() {
    let mut allocator = Allocator::new(0x10000, 0x10000, 6);
    for request in [0x800usize, 0x1000, 0x800, 0x4000, 0x2000, 0x800] {
        let (p, level, _) = allocator.allocate(request);
        assert!(p != 0);
        assert_eq!(p % (0x10000usize >> level), 0);
    }
}
