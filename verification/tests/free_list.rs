use buddy_memory::memory::free_list::FreeListAllocator;
use buddy_memory::memory::Allocator;

fn ranges(allocator: &FreeListAllocator) -> Vec<(usize, usize)> {
    allocator.free_list.iter().map(|n| (n.start, n.size)).collect()
}

#[test]
fn free_list_starts_as_one_range_of_whole_words() {
    let word = (usize::BITS / 8) as usize;
    let allocator = FreeListAllocator::new(0x1000, 0x1000);
    assert_eq!(allocator.heap_size, 0x1000);
    assert_eq!(ranges(&allocator), vec![(0x1000, 0x1000)]);
    let odd = FreeListAllocator::new(0x1000, 0x1001);
    assert_eq!(odd.heap_size, 0x1000 + word);
}

#[test]
fn free_list_splits_off_what_can_stay_a_free_range() {
    let mut allocator = FreeListAllocator::new(0x1000, 0x1000);
    assert_eq!(allocator.allocate(16, 8), (0x1000, 16));
    assert_eq!(ranges(&allocator), vec![(0x1010, 0xff0)]);
    assert_eq!(allocator.allocate(16, 64), (0x1040, 16));
    assert_eq!(ranges(&allocator), vec![(0x1010, 0x30), (0x1050, 0xfb0)]);
}

#[test]
fn free_list_release_joins_touching_ranges() {
    let mut allocator = FreeListAllocator::new(0x1000, 0x1000);
    let (a, _) = allocator.allocate(16, 8);
    let (b, _) = allocator.allocate(16, 64);
    allocator.dealloc(b);
    assert_eq!(ranges(&allocator), vec![(0x1010, 0xff0)]);
    allocator.dealloc(a);
    assert_eq!(ranges(&allocator), vec![(0x1000, 0x1000)]);
    assert!(allocator.live.is_empty());
}

#[test]
fn free_list_release_between_live_regions_stays_apart() {
    let mut allocator = FreeListAllocator::new(0x1000, 0x1000);
    let (a, _) = allocator.allocate(0x100, 1);
    let (b, _) = allocator.allocate(0x100, 1);
    let (c, _) = allocator.allocate(0x100, 1);
    assert_eq!((a, b, c), (0x1000, 0x1100, 0x1200));
    allocator.dealloc(b);
    assert_eq!(ranges(&allocator), vec![(0x1100, 0x100), (0x1300, 0xd00)]);
    allocator.dealloc(a);
    assert_eq!(ranges(&allocator), vec![(0x1000, 0x200), (0x1300, 0xd00)]);
    assert_eq!(allocator.allocate(0x180, 1), (0x1000, 0x180));
    allocator.dealloc(c);
    assert_eq!(ranges(&allocator), vec![(0x1180, 0xe80)]);
}

#[test]
fn free_list_takes_in_a_tail_too_small_for_a_record() {
    let mut allocator = FreeListAllocator::new(0x1000, 0x40);
    assert_eq!(allocator.allocate(0x38, 1), (0x1000, 0x40));
    assert!(ranges(&allocator).is_empty());
    assert_eq!(allocator.allocate(1, 1), (0, 0));
    allocator.dealloc(0x1000);
    assert_eq!(ranges(&allocator), vec![(0x1000, 0x40)]);
}

#[test]
fn free_list_fails_when_no_range_holds_the_request() {
    let mut allocator = FreeListAllocator::new(0x1000, 0x100);
    assert_eq!(allocator.allocate(0x101, 1), (0, 0));
    assert_eq!(allocator.allocate(0x100, 0x1000), (0, 0));
    assert_eq!(allocator.allocate(0x100, 0x100), (0x1000, 0x100));
    assert_eq!(allocator.allocate(1, 1), (0, 0));
}

#[test]
fn free_list_serves_a_request_for_no_bytes_as_one_byte() {
    let mut allocator = FreeListAllocator::new(0x1000, 0x100);
    assert_eq!(allocator.allocate(0, 1), (0x1000, 1));
    assert_eq!(ranges(&allocator), vec![(0x1001, 0xff)]);
}

#[test]
fn free_list_first_fit_skips_ranges_that_are_too_small() {
    let mut allocator = FreeListAllocator::new(0x1000, 0x1000);
    let (a, _) = allocator.allocate(0x40, 1);
    let (_b, _) = allocator.allocate(0x40, 1);
    allocator.dealloc(a);
    assert_eq!(ranges(&allocator), vec![(0x1000, 0x40), (0x1080, 0xf80)]);
    assert_eq!(allocator.allocate(0x80, 1), (0x1080, 0x80));
    assert_eq!(allocator.allocate(0x40, 1), (0x1000, 0x40));
}
