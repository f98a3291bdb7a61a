use crate::data_structures::bits::{bit_at, bit_len, lemma_word_in_range, with_bit, word_bits};
use crate::memory::{is_power_of_two, lemma_mask_rounds_down, round_down, round_up};
use vstd::prelude::*;

verus! {

/// Number of words that hold `bit_count` bits.
pub open spec fn words_for(bit_count: int) -> int {
    (bit_count + word_bits() - 1) / word_bits()
}

/// A bit-vector with room for `bit_count` bits, all of them set if
/// `all_set` and all of them clear if not.
pub fn new_bitmask_vec(bit_count: usize, all_set: bool) -> (r: Vec<usize>)
    requires
        bit_count + usize::BITS <= usize::MAX,
    ensures
        r@.len() == words_for(bit_count as int),
        bit_len(r@) >= bit_count,
        forall|i: int| 0 <= i < r@.len() ==> r@[i] == (if all_set {
            !0usize
        } else {
            0usize
        }),
        forall|j: int| 0 <= j < bit_len(r@) ==> bit_at(r@, j) == all_set,
{
    let w: usize = usize::BITS as usize;
    let fill: usize = if all_set {
        !0usize
    } else {
        0usize
    };
    let words: usize = (bit_count + w - 1) / w;
    let r: Vec<usize> = vec![fill; words];
    proof {
        vstd::arithmetic::div_mod::lemma_fundamental_div_mod((bit_count + w - 1) as int, w as int);
        vstd::arithmetic::div_mod::lemma_mod_pos_bound((bit_count + w - 1) as int, w as int);
        assert(words * w >= bit_count) by (nonlinear_arith)
            requires
                bit_count + w - 1 == w * words + (bit_count + w - 1) % (w as int),
                0 <= (bit_count + w - 1) % (w as int) < w,
        ;
        assert forall|j: int| 0 <= j < bit_len(r@) implies bit_at(r@, j) == all_set by {
            lemma_word_in_range(r@.len(), j);
            let k = (j % word_bits()) as usize;
            assert(!0usize & (1usize << k) != 0) by (bit_vector)
                requires
                    k < usize::BITS,
            ;
            assert(0usize & (1usize << k) == 0) by (bit_vector);
        }
    }
    r
}

/// Returns bit `index` of the bit-vector.
#[inline(always)]
pub fn get_bit(bits: &[usize], index: usize) -> (r: bool)
    requires
        index < bit_len(bits@),
    ensures
        r == bit_at(bits@, index as int),
{
    crate::data_structures::bits::get_bit(bits, index)
}

/// Writes `bit` at `index`.
#[inline(always)]
pub fn set_bit(bits: &mut [usize], index: usize, bit: bool)
    requires
        index < bit_len(old(bits)@),
    ensures
        final(bits)@ == with_bit(old(bits)@, index as int, bit),
{
    crate::data_structures::bits::set_bit(bits, index, bit)
}

/// Sets bit `index`.
#[inline(always)]
pub fn set_bit_true(bits: &mut [usize], index: usize)
    requires
        index < bit_len(old(bits)@),
    ensures
        final(bits)@ == with_bit(old(bits)@, index as int, true),
{
    crate::data_structures::bits::set_bit_true(bits, index)
}

/// Clears bit `index`.
#[inline(always)]
pub fn set_bit_false(bits: &mut [usize], index: usize)
    requires
        index < bit_len(old(bits)@),
    ensures
        final(bits)@ == with_bit(old(bits)@, index as int, false),
{
    crate::data_structures::bits::set_bit_false(bits, index)
}

/// Rounds `size` up to the next multiple of `align`, a power of two.
#[inline(always)]
pub fn align_up(size: usize, align: usize) -> (r: usize)
    requires
        is_power_of_two(align as int),
        size + align <= usize::MAX,
    ensures
        r == round_up(size as int, align as int),
{
    proof {
        lemma_mask_rounds_down((size + align - 1) as usize, align);
    }
    (size + align - 1) & !(align - 1)
}

/// Rounds `size` down to a multiple of `align`, a power of two.
#[inline(always)]
pub fn align_down(size: usize, align: usize) -> (r: usize)
    requires
        is_power_of_two(align as int),
    ensures
        r == round_down(size as int, align as int),
{
    proof {
        lemma_mask_rounds_down(size, align);
    }
    size & !(align - 1)
}

} // verus!
