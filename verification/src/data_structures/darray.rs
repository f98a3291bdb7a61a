use crate::memory::bump::BumpAllocator;
use crate::memory::{lemma_layout_align, Allocator};
use vstd::layout::{align_of, size_of};
use vstd::prelude::*;
use vstd::std_specs::cmp::PartialEqSpec;


verus! {

/// Factor by which the capacity grows when the array is full.
pub const CAPACITY_RESIZE_FACTOR: usize = 2;

/// A growable array that keeps a region of an allocator reserved for its
/// elements. The array borrows the allocator for as long as it lives; when
/// it is full it doubles its capacity, and asks the allocator for a larger
/// region if the one it holds is too small for that. The elements
/// themselves are held in a vector of the array: the library deals in
/// addresses and never writes to the region, which is only accounted for.
/// Every method leaves the borrow of the allocator as it is, so once the
/// array is gone the allocator is what `allocator()` last was.
pub struct Darray<'a, T, A: Allocator = BumpAllocator> {
    /// The allocator that the region comes from.
    pub allocator: &'a mut A,
    /// Address of the region; 0 if the allocator gave none.
    pub allocated_ptr: usize,
    /// Size of the region in bytes, as the allocator returned it.
    pub allocated_size: usize,
    /// Number of elements that the array holds before it has to grow.
    pub capacity: usize,
    /// Number of elements.
    pub len: usize,
    /// The elements.
    pub items: Vec<T>,
}

/// The sequence `start` after each element of `values` was pushed to it,
/// first to last.
pub open spec fn after_pushes<T>(start: Seq<T>, values: Seq<T>) -> Seq<T>
    decreases values.len(),
{
    if values.len() == 0 {
        start
    } else {
        after_pushes(start, values.drop_last()).push(values.last())
    }
}

/// Round trip: after the elements of `values` were pushed to an empty
/// array, the array has as many elements as `values`, and each index holds
/// the element that was pushed at that turn.
pub proof fn lemma_push_round_trip<T>(values: Seq<T>)
    ensures
        after_pushes(Seq::<T>::empty(), values).len() == values.len(),
        forall|i: int|
            0 <= i < values.len() ==> after_pushes(Seq::<T>::empty(), values)[i] == values[i],
        after_pushes(Seq::<T>::empty(), values) == values,
    decreases values.len(),
{
    if values.len() > 0 {
        lemma_push_round_trip(values.drop_last());
        assert(values.drop_last().push(values.last()) =~= values);
    }
    assert(after_pushes(Seq::<T>::empty(), values) =~= values);
}

impl<'a, T, A: Allocator> Darray<'a, T, A> {
    /// The elements, in the order of their indices.
    pub open spec fn view(&self) -> Seq<T> {
        self.items@
    }

    /// Number of elements that the array holds before it has to grow.
    pub open spec fn spec_capacity(&self) -> usize {
        self.capacity
    }

    /// Address of the region that is reserved for the elements; 0 if the
    /// allocator gave none.
    pub open spec fn region_ptr(&self) -> usize {
        self.allocated_ptr
    }

    /// Size in bytes of the region that is reserved for the elements.
    pub open spec fn region_size(&self) -> usize {
        self.allocated_size
    }

    /// The allocator as it is now.
    pub open spec fn allocator(&self) -> A {
        *self.allocator
    }

    /// Number of bytes that `capacity` elements take.
    pub open spec fn bytes_for(capacity: int) -> int {
        capacity * size_of::<T>()
    }

    /// The array holds at most `capacity` elements; its allocator is sound;
    /// the region it holds, if any, is allocated and large enough for
    /// `capacity` elements.
    pub open spec fn wf(&self) -> bool {
        &&& self.len == self.items@.len()
        &&& self.len <= self.capacity
        &&& self.capacity > 0
        &&& (*self.allocator).wf()
        &&& self.allocated_ptr != 0 ==> (*self.allocator).is_allocated(self.allocated_ptr)
            && Self::bytes_for(self.capacity as int) <= self.allocated_size
        &&& self.allocated_ptr == 0 ==> self.allocated_size == 0
    }

    /// Whether the array can take one more element: it holds a region,
    /// and it is not full, or the region is large enough for twice the
    /// capacity, or the allocator serves a request for that many bytes.
    pub open spec fn can_push(&self) -> bool {
        &&& self.region_ptr() != 0
        &&& self@.len() < self.spec_capacity() || {
            let grown = Self::bytes_for(CAPACITY_RESIZE_FACTOR * self.spec_capacity());
            &&& grown <= usize::MAX
            &&& CAPACITY_RESIZE_FACTOR * self.spec_capacity() <= usize::MAX
            &&& grown <= self.region_size() || self.allocator().can_allocate(
                grown as usize,
                align_of::<T>() as usize,
            )
        }
    }

    /// An empty array with room for `capacity` elements. The allocator is
    /// asked once, for `capacity` elements of `T` at the alignment of `T`,
    /// and the array records the address and the size that it returns. If
    /// the allocator serves no region, the array holds none and nothing
    /// can be pushed to it.
    pub fn with_capacity(allocator: &'a mut A, capacity: usize) -> (r: Self)
        requires
            capacity != 0,
            old(allocator).wf(),
            Self::bytes_for(capacity as int) <= usize::MAX,
        ensures
            r.wf(),
            r@ == Seq::<T>::empty(),
            r.spec_capacity() == capacity,
            (r.region_ptr(), r.region_size()) == old(allocator).allocated(
                Self::bytes_for(capacity as int) as usize,
                align_of::<T>() as usize,
            ),
            old(allocator).after_allocate(
                Self::bytes_for(capacity as int) as usize,
                align_of::<T>() as usize,
                &r.allocator(),
            ),
            r.region_ptr() != 0 <==> old(allocator).can_allocate(
                Self::bytes_for(capacity as int) as usize,
                align_of::<T>() as usize,
            ),
            r.region_ptr() != 0 ==> r.region_size() >= Self::bytes_for(capacity as int)
                && r.allocator().is_allocated(r.region_ptr()),
            r.allocator().wf(),
            *final(r.allocator) == *final(allocator),
    {
        vstd::layout::layout_for_type_is_valid::<T>();
        proof {
            lemma_layout_align(align_of::<T>() as int);
        }
        assert(capacity * size_of::<T>() <= usize::MAX);
        let (allocated_ptr, allocated_size) = allocator.allocate(
            capacity * core::mem::size_of::<T>(),
            core::mem::align_of::<T>(),
        );
        Darray { allocator, allocated_ptr, allocated_size, capacity, len: 0, items: Vec::new() }
    }

    /// Whether a push has to move the array to a new region: the array is
    /// full and the region it holds is too small for twice the capacity.
    pub open spec fn needs_region(&self) -> bool {
        self@.len() >= self.spec_capacity() && Self::bytes_for(
            CAPACITY_RESIZE_FACTOR * self.spec_capacity(),
        ) > self.region_size()
    }

    /// Appends `value`. A full array first doubles its capacity: in place
    /// if the region it holds is large enough, else in a new region. For
    /// that the allocator is asked once, for twice the capacity, and the
    /// array records the address and the size that it returns; then the
    /// old region goes back to the allocator. Only if the allocator handed
    /// out the address of the old region again, the region is not released:
    /// it is the one the array now holds.
    pub fn push(&mut self, value: T)
        requires
            old(self).wf(),
            old(self).can_push(),
        ensures
            final(self).wf(),
            *final(final(self).allocator) == *final(old(self).allocator),
            final(self)@ == old(self)@.push(value),
            final(self).region_ptr() != 0,
            final(self).allocator().wf(),
            final(self).allocator().is_allocated(final(self).region_ptr()),
            final(self).region_size() >= Self::bytes_for(final(self).spec_capacity() as int),
            final(self).spec_capacity() == if old(self)@.len() < old(self).spec_capacity() {
                old(self).spec_capacity() as int
            } else {
                CAPACITY_RESIZE_FACTOR * old(self).spec_capacity()
            },
            !old(self).needs_region() ==> final(self).region_ptr() == old(self).region_ptr()
                && final(self).region_size() == old(self).region_size() && final(self).allocator()
                == old(self).allocator(),
            old(self).needs_region() ==> {
                let grown = Self::bytes_for(CAPACITY_RESIZE_FACTOR * old(self).spec_capacity()) as usize;
                let align = align_of::<T>() as usize;
                &&& (final(self).region_ptr(), final(self).region_size()) == old(
                    self,
                ).allocator().allocated(grown, align)
                &&& exists|mid: A|
                    {
                        &&& #[trigger] old(self).allocator().after_allocate(grown, align, &mid)
                        &&& if final(self).region_ptr() != old(self).region_ptr() {
                            mid.after_dealloc(old(self).region_ptr(), &final(self).allocator())
                        } else {
                            final(self).allocator() == mid
                        }
                    }
            },
    {
        if self.len == self.capacity {
            vstd::layout::layout_for_type_is_valid::<T>();
            proof {
                lemma_layout_align(align_of::<T>() as int);
            }
            let capacity: usize = self.capacity * CAPACITY_RESIZE_FACTOR;
            assert(capacity * size_of::<T>() <= usize::MAX);
            let size: usize = capacity * core::mem::size_of::<T>();
            if self.allocated_size < size {
                let (new_allocated_ptr, new_allocated_size) = self.allocator.allocate(
                    size,
                    core::mem::align_of::<T>(),
                );
                let ghost mid = *self.allocator;
                if new_allocated_ptr != self.allocated_ptr {
                    self.allocator.dealloc(self.allocated_ptr);
                }
                proof {
                    assert(old(self).allocator().after_allocate(
                        size,
                        align_of::<T>() as usize,
                        &mid,
                    ));
                }
                self.allocated_ptr = new_allocated_ptr;
                self.allocated_size = new_allocated_size;
            }
            self.capacity = capacity;
        }
        self.items.push(value);
        self.len += 1;
    }

    /// Number of elements that the array holds before it has to grow.
    #[inline(always)]
    pub fn capacity(&self) -> (r: usize)
        ensures
            r == self.spec_capacity(),
    {
        self.capacity
    }

    /// Number of elements.
    #[inline(always)]
    pub fn len(&self) -> (r: usize)
        requires
            self.wf(),
        ensures
            r == self@.len(),
    {
        self.len
    }

    /// A handle for writing element `index`.
    pub fn index_mut(&mut self, index: usize) -> (r: &mut T)
        requires
            old(self).wf(),
            index < old(self)@.len(),
        ensures
            *r == old(self)@[index as int],
            final(self)@ == old(self)@.update(index as int, *final(r)),
            final(self).wf(),
            *final(final(self).allocator) == *final(old(self).allocator),
            final(self).spec_capacity() == old(self).spec_capacity(),
            final(self).region_ptr() == old(self).region_ptr(),
            final(self).region_size() == old(self).region_size(),
            final(self).allocator() == old(self).allocator(),
    {
        &mut self.items[index]
    }

    /// Gives the region of the array back to the allocator, with one call
    /// of `dealloc` for the region held now, and empties the array. An
    /// array that holds no region leaves the allocator alone.
    pub fn release(&mut self)
        requires
            old(self).wf(),
        ensures
            final(self).wf(),
            *final(final(self).allocator) == *final(old(self).allocator),
            final(self)@ == Seq::<T>::empty(),
            final(self).region_ptr() == 0,
            final(self).region_size() == 0,
            final(self).spec_capacity() == old(self).spec_capacity(),
            final(self).allocator().wf(),
            old(self).region_ptr() != 0 ==> old(self).allocator().after_dealloc(
                old(self).region_ptr(),
                &final(self).allocator(),
            ),
            old(self).region_ptr() == 0 ==> final(self).allocator() == old(self).allocator(),
    {
        if self.allocated_ptr != 0 {
            self.allocator.dealloc(self.allocated_ptr);
        }
        self.allocated_ptr = 0;
        self.allocated_size = 0;
        self.items.clear();
        self.len = 0;
    }
}

impl<'a, T, A: Allocator> core::ops::Index<usize> for Darray<'a, T, A> {
    type Output = T;

    /// Element `index`.
    fn index(&self, index: usize) -> (r: &T)
        ensures
            *r == self@[index as int],
    {
        &self.items[index]
    }
}

impl<'a, T, A: Allocator> vstd::std_specs::core::IndexSpecImpl<usize> for Darray<'a, T, A> {
    /// An index is in bounds if it is below the number of elements.
    open spec fn index_req(&self, index: &usize) -> bool {
        *index < self@.len()
    }
}

impl<'a, T: PartialEq, A: Allocator> PartialEq for Darray<'a, T, A> {
    /// Whether both arrays have the same number of elements and equal
    /// elements at each index.
    fn eq(&self, other: &Self) -> (r: bool) {
        if self.items.len() != other.items.len() {
            return false;
        }
        let mut i: usize = 0;
        while i < self.items.len()
            invariant
                i <= self.items@.len(),
                self.items@.len() == other.items@.len(),
                T::obeys_eq_spec() ==> forall|k: int|
                    0 <= k < i ==> (#[trigger] self.items@[k]).eq_spec(&other.items@[k]),
            decreases self.items@.len() - i,
        {
            if self.items[i] != other.items[i] {
                return false;
            }
            i += 1;
        }
        true
    }
}

impl<'a, T: PartialEq, A: Allocator> vstd::std_specs::cmp::PartialEqSpecImpl for Darray<'a, T, A> {
    open spec fn obeys_eq_spec() -> bool {
        T::obeys_eq_spec()
    }

    /// Two arrays are equal if they have the same length and their
    /// elements are equal index by index.
    open spec fn eq_spec(&self, other: &Self) -> bool {
        &&& self@.len() == other@.len()
        &&& forall|k: int| 0 <= k < self@.len() ==> (#[trigger] self@[k]).eq_spec(&other@[k])
    }
}

} // verus!
