use crate::memory::{align_down, lemma_rounding, round_up, Allocator};
use vstd::prelude::*;

verus! {

/// An allocator that hands out the heap front to back: each region starts
/// at the first aligned address at or after the end of the one before.
/// Releasing a region moves the cursor back to its start, so regions are
/// to be released in the reverse order of their allocation.
pub struct BumpAllocator {
    /// Address of the first byte of the heap.
    pub heap_start: usize,
    /// Address just past the last byte of the heap.
    pub heap_end: usize,
    /// Address at or after which the next region starts.
    pub next: usize,
}

impl BumpAllocator {
    /// An allocator over the `heap_size` bytes at `heap_start`, none of
    /// them handed out.
    pub fn new(heap_start: usize, heap_size: usize) -> (r: Self)
        requires
            heap_start > 0,
            heap_start + heap_size <= usize::MAX,
        ensures
            r.wf(),
            r.heap_start == heap_start,
            r.heap_end == heap_start + heap_size,
            r.next == heap_start,
    {
        BumpAllocator { heap_start, heap_end: heap_start + heap_size, next: heap_start }
    }
}

impl Allocator for BumpAllocator {
    /// The heap does not start at address 0 and the cursor is inside it.
    open spec fn wf(&self) -> bool {
        0 < self.heap_start <= self.next <= self.heap_end
    }

    /// A request is served if it fits between the cursor, rounded up to
    /// the alignment, and the end of the heap.
    open spec fn can_allocate(&self, size: usize, align: usize) -> bool {
        round_up(self.next as int, align as int) + size <= self.heap_end
    }

    /// `dealloc` takes every address of the heap.
    open spec fn is_allocated(&self, ptr: usize) -> bool {
        self.heap_start <= ptr <= self.heap_end
    }

    /// The first multiple of `align` at or after the cursor, with the size
    /// asked for.
    open spec fn allocated(&self, size: usize, align: usize) -> (usize, usize) {
        if self.can_allocate(size, align) {
            (round_up(self.next as int, align as int) as usize, size)
        } else {
            (0, 0)
        }
    }

    /// A request that is served moves the cursor to the end of the region;
    /// one that is not leaves the allocator as it is.
    open spec fn after_allocate(&self, size: usize, align: usize, after: &Self) -> bool {
        *after == (BumpAllocator {
            heap_start: self.heap_start,
            heap_end: self.heap_end,
            next: if self.can_allocate(size, align) {
                (round_up(self.next as int, align as int) + size) as usize
            } else {
                self.next
            },
        })
    }

    /// The cursor stands at `ptr`.
    open spec fn after_dealloc(&self, ptr: usize, after: &Self) -> bool {
        *after == (BumpAllocator { heap_start: self.heap_start, heap_end: self.heap_end, next: ptr })
    }

    /// Returns the first address at or after the cursor that is a multiple
    /// of `align`, and moves the cursor `requested_size` bytes past it.
    fn allocate(&mut self, requested_size: usize, align: usize) -> (r: (usize, usize))
        ensures
            final(self).heap_start == old(self).heap_start,
            final(self).heap_end == old(self).heap_end,
            r.0 == 0 ==> final(self).next == old(self).next,
            r.0 != 0 ==> {
                &&& r.0 == round_up(old(self).next as int, align as int)
                &&& r.0 % align == 0
                &&& r.1 == requested_size
                &&& final(self).next == r.0 + requested_size
            },
    {
        proof {
            crate::memory::lemma_mask_rounds_down(self.next, align);
            lemma_rounding(self.next as int, align as int);
        }
        let down: usize = align_down(self.next, align);
        let next: usize = if down == self.next {
            down
        } else {
            if align > self.heap_end - down {
                return (0, 0);
            }
            down + align
        };
        if requested_size > self.heap_end - next {
            return (0, 0);
        }
        self.next = next + requested_size;
        (next, requested_size)
    }

    /// Moves the cursor back to `allocated_ptr`.
    fn dealloc(&mut self, allocated_ptr: usize)
        ensures
            final(self).heap_start == old(self).heap_start,
            final(self).heap_end == old(self).heap_end,
            final(self).next == allocated_ptr,
    {
        self.next = allocated_ptr;
    }
}

} // verus!
