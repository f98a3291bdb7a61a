pub mod buddy;
pub mod bump;
pub mod free_list;

use vstd::arithmetic::power2::pow2;
use vstd::prelude::*;

verus! {

/// What every allocator of this crate offers: regions of memory, named by
/// the address of their first byte. Address 0 names no region.
pub trait Allocator {
    /// The allocator's own invariant.
    spec fn wf(&self) -> bool;

    /// Whether a request for `size` bytes aligned to `align` is served.
    spec fn can_allocate(&self, size: usize, align: usize) -> bool;

    /// Whether `ptr` names a region that `dealloc` takes back.
    spec fn is_allocated(&self, ptr: usize) -> bool;

    /// What `allocate` returns for `size` bytes aligned to `align`: the
    /// address and the size of the region, `(0, 0)` if the request is not
    /// served.
    spec fn allocated(&self, size: usize, align: usize) -> (usize, usize);

    /// Whether `after` is this allocator after a call of `allocate` for
    /// `size` bytes aligned to `align`.
    spec fn after_allocate(&self, size: usize, align: usize, after: &Self) -> bool;

    /// Whether `after` is this allocator after a call of `dealloc` for the
    /// region at `ptr`.
    spec fn after_dealloc(&self, ptr: usize, after: &Self) -> bool;

    /// Allocates `requested_size` bytes aligned to `requested_align`, a
    /// power of two. Returns the address of the region and its size, which
    /// is at least `requested_size`, or `(0, 0)` if the request cannot be
    /// served.
    fn allocate(&mut self, requested_size: usize, requested_align: usize) -> (r: (usize, usize))
        requires
            old(self).wf(),
            is_power_of_two(requested_align as int),
        ensures
            final(self).wf(),
            r == old(self).allocated(requested_size, requested_align),
            old(self).after_allocate(requested_size, requested_align, final(self)),
            r.0 != 0 <==> old(self).can_allocate(requested_size, requested_align),
            r.0 == 0 ==> r.1 == 0,
            r.0 != 0 ==> r.1 >= requested_size && final(self).is_allocated(r.0),
            forall|p: usize| old(self).is_allocated(p) ==> final(self).is_allocated(p),
    ;

    /// Takes back the region at `ptr`, which an earlier `allocate`
    /// returned. Every other region stays allocated.
    fn dealloc(&mut self, ptr: usize)
        requires
            old(self).wf(),
            old(self).is_allocated(ptr),
        ensures
            final(self).wf(),
            old(self).after_dealloc(ptr, final(self)),
            forall|p: usize| p != ptr && old(self).is_allocated(p) ==> final(self).is_allocated(p),
    ;
}

/// Writes `val` at position `index` of `array`.
pub fn set_array_element<T>(array: &mut [T], index: usize, val: T)
    requires
        index < old(array)@.len(),
    ensures
        final(array)@ == old(array)@.update(index as int, val),
{
    array[index] = val;
}

/// Whether `n` is a power of two.
pub open spec fn is_power_of_two(n: int) -> bool {
    exists|k: nat| n == #[trigger] pow2(k)
}

/// The largest multiple of `align` that is at most `size`.
pub open spec fn round_down(size: int, align: int) -> int {
    size - size % align
}

/// The smallest multiple of `align` that is at least `size`.
pub open spec fn round_up(size: int, align: int) -> int {
    round_down(size + align - 1, align)
}

/// An alignment that a type can have is a power of two.
pub proof fn lemma_layout_align(align: int)
    requires
        vstd::arithmetic::power2::is_pow2(align),
    ensures
        is_power_of_two(align),
{
    vstd::arithmetic::power2::is_pow2_equiv(align);
    let k = choose|k: nat| vstd::arithmetic::power::pow(2, k) == align;
    vstd::arithmetic::power2::lemma_pow2(k);
    assert(align == pow2(k));
}

/// `round_down` gives a multiple of `align` less than `align` below `size`,
/// and `round_up` one less than `align` above it.
pub proof fn lemma_rounding(size: int, align: int)
    requires
        0 <= size,
        0 < align,
    ensures
        round_down(size, align) % align == 0,
        size - align < round_down(size, align) <= size,
        round_up(size, align) % align == 0,
        size <= round_up(size, align) < size + align,
        size % align == 0 ==> round_down(size, align) == size && round_up(size, align) == size,
        size % align != 0 ==> round_up(size, align) == round_down(size, align) + align,
{
    vstd::arithmetic::div_mod::lemma_fundamental_div_mod(size, align);
    vstd::arithmetic::div_mod::lemma_mod_multiples_basic(size / align, align);
    vstd::arithmetic::div_mod::lemma_mod_pos_bound(size, align);
    let up = size + align - 1;
    vstd::arithmetic::div_mod::lemma_fundamental_div_mod(up, align);
    vstd::arithmetic::div_mod::lemma_mod_multiples_basic(up / align, align);
    vstd::arithmetic::div_mod::lemma_mod_pos_bound(up, align);
    assert(size - size % align == (size / align) * align) by (nonlinear_arith)
        requires
            size == align * (size / align) + size % align,
    ;
    assert(up - up % align == (up / align) * align) by (nonlinear_arith)
        requires
            up == align * (up / align) + up % align,
    ;
    if size % align == 0 {
        let q = size / align;
        assert(up == align * q + (align - 1)) by (nonlinear_arith)
            requires
                size == align * q,
                up == size + align - 1,
        ;
        vstd::arithmetic::div_mod::lemma_fundamental_div_mod_converse(up, align, q, align - 1);
    } else {
        let q = size / align;
        let r = size % align;
        assert(up == align * (q + 1) + (r - 1)) by (nonlinear_arith)
            requires
                size == align * q + r,
                up == size + align - 1,
        ;
        vstd::arithmetic::div_mod::lemma_fundamental_div_mod_converse(up, align, q + 1, r - 1);
    }
}

/// For a power of two `align`, masking with `!(align - 1)` rounds down
/// to a multiple of `align`.
pub proof fn lemma_mask_rounds_down(size: usize, align: usize)
    requires
        is_power_of_two(align as int),
    ensures
        align >= 1,
        size & !((align - 1) as usize) == round_down(size as int, align as int),
{
    let k = choose|k: nat| align as int == #[trigger] pow2(k);
    vstd::arithmetic::power2::lemma_pow2_pos(k);
    if k >= usize::BITS {
        vstd::arithmetic::power2::lemma_pow2_strictly_increases((usize::BITS - 1) as nat, k);
        vstd::arithmetic::power2::lemma_pow2_unfold(usize::BITS as nat);
        vstd::arithmetic::power2::lemma2_to64();
        vstd::arithmetic::power2::lemma2_to64_rest();
        if k > usize::BITS {
            vstd::arithmetic::power2::lemma_pow2_strictly_increases(usize::BITS as nat, k);
        }
        assert(false);
    }
    let mask = (align - 1) as usize;
    assert(mask == vstd::bits::low_bits_mask(k) as usize);
    vstd::bits::lemma_usize_low_bits_mask_is_mod(size, k);
    assert(size & !mask == size - (size & mask)) by (bit_vector);
}

/// Rounds `size` up to the next multiple of `align`, a power of two.
#[inline(always)]
pub fn align_up(size: usize, align: usize) -> (r: usize)
    requires
        is_power_of_two(align as int),
        size + align <= usize::MAX,
    ensures
        r == round_up(size as int, align as int),
{
    proof {
        lemma_mask_rounds_down((size + align - 1) as usize, align);
    }
    (size + align - 1) & !(align - 1)
}

/// Rounds `size` down to a multiple of `align`, a power of two.
#[inline(always)]
pub fn align_down(size: usize, align: usize) -> (r: usize)
    requires
        is_power_of_two(align as int),
    ensures
        r == round_down(size as int, align as int),
{
    proof {
        lemma_mask_rounds_down(size, align);
    }
    size & !(align - 1)
}

/// Rounds the address `ptr` up to the next multiple of `align`, a power
/// of two.
#[inline(always)]
pub fn align_ptr_up(ptr: usize, align: usize) -> (r: usize)
    requires
        is_power_of_two(align as int),
        ptr + align <= usize::MAX,
    ensures
        r == round_up(ptr as int, align as int),
{
    proof {
        lemma_mask_rounds_down((ptr + align - 1) as usize, align);
    }
    (ptr + align - 1) & !(align - 1)
}

/// Rounds the address `ptr` down to a multiple of `align`, a power of
/// two.
#[inline(always)]
pub fn align_ptr_down(ptr: usize, align: usize) -> (r: usize)
    requires
        is_power_of_two(align as int),
    ensures
        r == round_down(ptr as int, align as int),
{
    proof {
        lemma_mask_rounds_down(ptr, align);
    }
    ptr & !(align - 1)
}

} // verus!
