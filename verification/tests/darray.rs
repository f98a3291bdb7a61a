use buddy_memory::data_structures::darray::Darray;
use buddy_memory::memory::buddy::BuddyAllocator;
use buddy_memory::memory::bump::BumpAllocator;

#[test]
fn compare_with_std() {
    let heap_size = 0x40;
    let heap_start = 0x1000;

    let mut allocator = BumpAllocator::new(heap_start, heap_size);

    {
        let std_vec = vec![6, 9, 4, 2, 0];

        let mut darray: Darray<'_, i32> = Darray::with_capacity(&mut allocator, std_vec.len());
        for &e in std_vec.iter() {
            darray.push(e);
        }

        for i in 0..std_vec.len() {
            assert!(darray[i] == std_vec[i]);
        }
        assert_eq!(darray.len(), 5);
        darray.release();
    }
}

#[test]
fn in_place_growth() {
    let heap_size = 0x40;
    let heap_start = 0x1000;

    let mut allocator = BumpAllocator::new(heap_start, heap_size);

    {
        let std_vec = vec![6, 9, 4, 2, 0];

        let mut darray: Darray<'_, i32> = Darray::with_capacity(&mut allocator, 1);
        for &e in std_vec.iter() {
            darray.push(e);
        }

        for i in 0..std_vec.len() {
            assert!(darray[i] == std_vec[i]);
        }
        assert_eq!(darray.len(), 5);
        assert_eq!(darray.capacity(), 8);
        darray.release();
    }
}

#[test]
fn darray_grows_in_place_inside_a_buddy_block() {
    let mut allocator = BuddyAllocator::new(0x4000, 0x4000, 4);
    {
        let mut darray: Darray<'_, u64, BuddyAllocator> = Darray::with_capacity(&mut allocator, 1);
        for value in 0..256u64 {
            darray.push(value);
        }
        assert_eq!(darray.len(), 256);
        assert_eq!(darray.capacity(), 256);
        for i in 0..256usize {
            assert_eq!(darray[i], i as u64);
        }
        darray.push(256);
        assert_eq!(darray.capacity(), 512);
        assert_eq!(darray[256], 256);
        darray.release();
    }
    assert_eq!(buddy_memory::memory::Allocator::allocate(&mut allocator, 0x4000, 1), (0x4000, 0x4000));
}

#[test]
fn darray_equality_is_elementwise() {
    let mut first = BumpAllocator::new(0x1000, 0x100);
    let mut second = BumpAllocator::new(0x2000, 0x100);
    let mut a: Darray<'_, i32> = Darray::with_capacity(&mut first, 4);
    let mut b: Darray<'_, i32> = Darray::with_capacity(&mut second, 2);
    a.push(1);
    a.push(2);
    b.push(1);
    assert!(a != b);
    b.push(2);
    assert!(a == b);
    *b.index_mut(1) = 3;
    assert!(a != b);
    assert_eq!(b[1], 3);
}

#[test]
fn darray_records_the_region_that_the_allocator_returned() {
    let mut allocator = BuddyAllocator::new(0x4000, 0x4000, 4);
    let darray: Darray<'_, u64, BuddyAllocator> = Darray::with_capacity(&mut allocator, 1);
    // eight bytes were asked for; the allocator returned a whole smallest block
    assert_eq!((darray.allocated_ptr, darray.allocated_size), (0x4000, 0x800));
    assert_eq!(darray.capacity(), 1);
    assert_eq!(darray.len(), 0);

    let mut bump = BumpAllocator::new(0x1001, 0x40);
    let darray: Darray<'_, u32> = Darray::with_capacity(&mut bump, 3);
    assert_eq!((darray.allocated_ptr, darray.allocated_size), (0x1004, 12));
    assert_eq!(bump.next, 0x1010);
}

#[test]
fn darray_without_a_region_records_none() {
    let mut bump = BumpAllocator::new(0x1000, 0x10);
    let darray: Darray<'_, u64> = Darray::with_capacity(&mut bump, 3);
    assert_eq!((darray.allocated_ptr, darray.allocated_size), (0, 0));
    assert_eq!(bump.next, 0x1000);
}

#[test]
fn darray_growth_allocates_then_releases_the_old_region() {
    let mut allocator = BuddyAllocator::new(0x4000, 0x4000, 4);
    {
        let mut darray: Darray<'_, u64, BuddyAllocator> =
            Darray::with_capacity(&mut allocator, 256);
        assert_eq!((darray.allocated_ptr, darray.allocated_size), (0x4000, 0x800));
        for value in 0..256u64 {
            darray.push(value);
        }
        // still in the first region: nothing had to grow
        assert_eq!((darray.allocated_ptr, darray.allocated_size), (0x4000, 0x800));
        darray.push(256);
        // twice the capacity does not fit: a block of the next size, taken while the old
        // one was still held
        assert_eq!(darray.capacity(), 512);
        assert_eq!((darray.allocated_ptr, darray.allocated_size), (0x5000, 0x1000));
        assert_eq!(darray[0], 0);
        assert_eq!(darray[256], 256);
    }
    // the first region went back to the allocator, the second is still held
    assert_eq!(buddy_memory::memory::Allocator::allocate(&mut allocator, 0x800, 1), (0x4000, 0x800));
    assert_eq!(buddy_memory::memory::Allocator::allocate(&mut allocator, 0x1000, 1), (0x6000, 0x1000));
}

#[test]
fn darray_growth_over_a_bump_allocator_moves_the_cursor() {
    let mut bump = BumpAllocator::new(0x1000, 0x40);
    {
        let mut darray: Darray<'_, i32> = Darray::with_capacity(&mut bump, 1);
        darray.push(6);
        darray.push(9);
        assert_eq!((darray.allocated_ptr, darray.allocated_size), (0x1004, 8));
        darray.push(4);
        assert_eq!((darray.allocated_ptr, darray.allocated_size), (0x1000, 16));
        darray.push(2);
        darray.push(0);
        assert_eq!((darray.allocated_ptr, darray.allocated_size), (0x1004, 32));
        assert_eq!(darray.capacity(), 8);
    }
    // the last release of an old region left the cursor at that region
    assert_eq!(bump.next, 0x1000);
}

#[test]
fn darray_release_calls_dealloc_for_the_region_held() {
    let mut bump = BumpAllocator::new(0x1000, 0x40);
    {
        let mut darray: Darray<'_, i32> = Darray::with_capacity(&mut bump, 4);
        darray.push(1);
        assert_eq!(darray.allocated_ptr, 0x1000);
        darray.release();
        assert_eq!((darray.allocated_ptr, darray.allocated_size), (0, 0));
        assert_eq!(darray.len(), 0);
        // a second release has no region to give back
        darray.release();
    }
    assert_eq!(bump.next, 0x1000);

    let mut allocator = BuddyAllocator::new(0x4000, 0x4000, 4);
    {
        let mut darray: Darray<'_, u8, BuddyAllocator> = Darray::with_capacity(&mut allocator, 4);
        darray.release();
    }
    assert_eq!(allocator.get_block_count(), 8);
    assert!(allocator.block_to_free_tree.iter().all(|entry| entry.is_none()));
    assert_eq!(buddy_memory::memory::Allocator::allocate(&mut allocator, 0x4000, 1), (0x4000, 0x4000));
}

#[test]
fn darray_index_mut_writes_one_element() {
    let mut bump = BumpAllocator::new(0x1000, 0x40);
    let mut darray: Darray<'_, i32> = Darray::with_capacity(&mut bump, 2);
    darray.push(1);
    darray.push(2);
    *darray.index_mut(0) = 7;
    assert_eq!((darray[0], darray[1]), (7, 2));
    assert_eq!(darray.len(), 2);
    darray.push(3);
    assert_eq!((darray[0], darray[1], darray[2]), (7, 2, 3));
}
