use buddy_memory::memory::bump::BumpAllocator;
use buddy_memory::memory::{
    align_down, align_ptr_down, align_ptr_up, align_up, set_array_element, Allocator,
};

#[test]
fn align_up_gives_the_next_multiple() {
    assert_eq!(align_up(0, 16), 0);
    assert_eq!(align_up(1, 16), 16);
    assert_eq!(align_up(16, 16), 16);
    assert_eq!(align_up(17, 16), 32);
    assert_eq!(align_up(5, 1), 5);
}

#[test]
fn align_down_gives_the_multiple_below() {
    assert_eq!(align_down(0, 16), 0);
    assert_eq!(align_down(15, 16), 0);
    assert_eq!(align_down(16, 16), 16);
    assert_eq!(align_down(0x1fff, 0x1000), 0x1000);
}

#[test]
fn align_ptr_matches_align_of_sizes() {
    assert_eq!(align_ptr_up(0x1001, 0x1000), 0x2000);
    assert_eq!(align_ptr_up(0x1000, 0x1000), 0x1000);
    assert_eq!(align_ptr_down(0x1fff, 0x1000), 0x1000);
    assert_eq!(align_ptr_down(0x2000, 0x1000), 0x2000);
}

#[test]
fn set_array_element_writes_one_slot() {
    let mut values = vec![1, 2, 3];
    set_array_element(&mut values, 1, 9);
    assert_eq!(values, vec![1, 9, 3]);
}

#[test]
fn bump_returns_successive_aligned_regions() {
    let mut bump = BumpAllocator::new(0x1001, 0x40);
    assert_eq!(bump.allocate(3, 1), (0x1001, 3));
    assert_eq!(bump.allocate(8, 8), (0x1008, 8));
    assert_eq!(bump.next, 0x1010);
    assert_eq!(bump.allocate(1, 16), (0x1010, 1));
}

#[test]
fn bump_fails_past_the_end_and_fills_to_the_end() {
    let mut bump = BumpAllocator::new(0x1000, 0x40);
    assert_eq!(bump.allocate(0x41, 1), (0, 0));
    assert_eq!(bump.next, 0x1000);
    assert_eq!(bump.allocate(0x40, 1), (0x1000, 0x40));
    assert_eq!(bump.allocate(1, 1), (0, 0));
    assert_eq!(bump.allocate(0, 1), (0x1040, 0));
}

#[test]
fn bump_fails_when_alignment_leaves_the_heap() {
    let mut bump = BumpAllocator::new(0x1001, 0x8);
    assert_eq!(bump.allocate(1, 0x1000), (0, 0));
    assert_eq!(bump.next, 0x1001);
}

#[test]
fn bump_dealloc_moves_the_cursor_back() {
    let mut bump = BumpAllocator::new(0x1000, 0x40);
    let (first, _) = bump.allocate(8, 8);
    let (second, _) = bump.allocate(8, 8);
    assert_eq!((first, second), (0x1000, 0x1008));
    bump.dealloc(second);
    assert_eq!(bump.next, 0x1008);
    assert_eq!(bump.allocate(8, 8), (0x1008, 8));
}
