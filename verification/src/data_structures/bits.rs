use vstd::prelude::*;

verus! {

/// Number of bits in one machine word of a bit-vector.
pub open spec fn word_bits() -> int {
    usize::BITS as int
}

/// Whether bit `k` of the single word `w` is set.
pub open spec fn word_bit(w: usize, k: usize) -> bool {
    w & (1usize << k) != 0
}

/// Number of bits that a bit-vector of these words holds.
pub open spec fn bit_len(bits: Seq<usize>) -> int {
    bits.len() * word_bits()
}

/// The value of bit `index` in a bit-vector: bit `index % word_bits()` of
/// word `index / word_bits()`.
pub open spec fn bit_at(bits: Seq<usize>, index: int) -> bool {
    word_bit(bits[index / word_bits()], (index % word_bits()) as usize)
}

/// A bit index below `bit_len` names a word inside the vector.
pub proof fn lemma_word_in_range(len: nat, index: int)
    requires
        0 <= index < len * word_bits(),
    ensures
        0 <= index / word_bits() < len,
        0 <= index % word_bits() < word_bits(),
{
    let w = word_bits();
    assert(w == 32 || w == 64);
    assert(index / w < len) by (nonlinear_arith)
        requires
            0 <= index < len * w,
            w > 0,
    ;
    assert(0 <= index / w) by (nonlinear_arith)
        requires
            0 <= index,
            w > 0,
    ;
}

/// Setting bit `k` of a word leaves that bit set.
pub proof fn lemma_word_set(w: usize, k: usize)
    requires
        k < usize::BITS,
    ensures
        word_bit(w | (1usize << k), k),
        forall|j: usize| j < usize::BITS && j != k ==> word_bit(w | (1usize << k), j) == word_bit(w, j),
{
    assert((w | (1usize << k)) & (1usize << k) != 0) by (bit_vector)
        requires
            k < usize::BITS,
    ;
    assert forall|j: usize| j < usize::BITS && j != k implies word_bit(w | (1usize << k), j)
        == word_bit(w, j) by {
        assert(((w | (1usize << k)) & (1usize << j) != 0) == (w & (1usize << j) != 0))
            by (bit_vector)
            requires
                k < usize::BITS,
                j < usize::BITS,
                j != k,
        ;
    }
}

/// Clearing bit `k` of a word leaves that bit clear.
pub proof fn lemma_word_clear(w: usize, k: usize)
    requires
        k < usize::BITS,
    ensures
        !word_bit(w & !(1usize << k), k),
        forall|j: usize| j < usize::BITS && j != k ==> word_bit(w & !(1usize << k), j) == word_bit(w, j),
{
    assert((w & !(1usize << k)) & (1usize << k) == 0) by (bit_vector)
        requires
            k < usize::BITS,
    ;
    assert forall|j: usize| j < usize::BITS && j != k implies word_bit(w & !(1usize << k), j)
        == word_bit(w, j) by {
        assert(((w & !(1usize << k)) & (1usize << j) != 0) == (w & (1usize << j) != 0))
            by (bit_vector)
            requires
                k < usize::BITS,
                j < usize::BITS,
                j != k,
        ;
    }
}

/// Replacing word `index / word_bits()` changes no bit of another word,
/// and the bits of that word follow the new word.
pub proof fn lemma_update_word(bits: Seq<usize>, index: int, word: usize)
    requires
        0 <= index < bit_len(bits),
    ensures
        forall|j: int|
            0 <= j < bit_len(bits) ==> #[trigger] bit_at(
                bits.update(index / word_bits(), word),
                j,
            ) == if j / word_bits() == index / word_bits() {
                word_bit(word, (j % word_bits()) as usize)
            } else {
                bit_at(bits, j)
            },
{
    lemma_word_in_range(bits.len(), index);
    assert forall|j: int| 0 <= j < bit_len(bits) implies #[trigger] bit_at(
        bits.update(index / word_bits(), word),
        j,
    ) == if j / word_bits() == index / word_bits() {
        word_bit(word, (j % word_bits()) as usize)
    } else {
        bit_at(bits, j)
    } by {
        lemma_word_in_range(bits.len(), j);
    }
}

/// The bit-vector `bits` with bit `index` set to `bit` and every other bit
/// unchanged.
pub open spec fn with_bit(bits: Seq<usize>, index: int, bit: bool) -> Seq<usize> {
    let word = bits[index / word_bits()];
    let mask = 1usize << ((index % word_bits()) as usize);
    bits.update(
        index / word_bits(),
        if bit {
            word | mask
        } else {
            word & !mask
        },
    )
}

/// Writing a bit and reading it back gives the written value; every other
/// bit reads as before, and the vector keeps its length.
pub proof fn lemma_with_bit(bits: Seq<usize>, index: int, bit: bool)
    requires
        0 <= index < bit_len(bits),
    ensures
        with_bit(bits, index, bit).len() == bits.len(),
        bit_at(with_bit(bits, index, bit), index) == bit,
        forall|j: int|
            0 <= j < bit_len(bits) && j != index ==> bit_at(with_bit(bits, index, bit), j)
                == bit_at(bits, j),
{
    lemma_word_in_range(bits.len(), index);
    let word = bits[index / word_bits()];
    let k = (index % word_bits()) as usize;
    let new_word = if bit {
        word | (1usize << k)
    } else {
        word & !(1usize << k)
    };
    lemma_word_set(word, k);
    lemma_word_clear(word, k);
    lemma_update_word(bits, index, new_word);
    assert forall|j: int| 0 <= j < bit_len(bits) && j != index implies bit_at(
        with_bit(bits, index, bit),
        j,
    ) == bit_at(bits, j) by {
        lemma_word_in_range(bits.len(), j);
    }
}

/// Setting a bit and then clearing it leaves it clear.
pub proof fn lemma_set_true_then_false(bits: Seq<usize>, index: int)
    requires
        0 <= index < bit_len(bits),
    ensures
        !bit_at(with_bit(with_bit(bits, index, true), index, false), index),
{
    lemma_with_bit(bits, index, true);
    lemma_with_bit(with_bit(bits, index, true), index, false);
}

/// Returns bit `index` of the bit-vector.
pub fn get_bit(bits: &[usize], index: usize) -> (r: bool)
    requires
        index < bit_len(bits@),
    ensures
        r == bit_at(bits@, index as int),
{
    let w: usize = usize::BITS as usize;
    proof {
        lemma_word_in_range(bits@.len(), index as int);
    }
    bits[index / w] & (1usize << (index % w)) != 0
}

/// Writes `bit` at `index`: the bit is first cleared, then the new value
/// is or-ed in.
pub fn set_bit(bits: &mut [usize], index: usize, bit: bool)
    requires
        index < bit_len(old(bits)@),
    ensures
        final(bits)@ == with_bit(old(bits)@, index as int, bit),
{
    let w: usize = usize::BITS as usize;
    let k: usize = index % w;
    proof {
        lemma_word_in_range(bits@.len(), index as int);
    }
    let word: usize = bits[index / w];
    let value: usize = if bit {
        1
    } else {
        0
    };
    proof {
        assert((word & !(1usize << k)) | (value << k) == if bit {
            word | (1usize << k)
        } else {
            word & !(1usize << k)
        }) by (bit_vector)
            requires
                k < usize::BITS,
                value == if bit {
                    1usize
                } else {
                    0usize
                },
        ;
    }
    bits[index / w] = (word & !(1usize << k)) | (value << k);
}

/// Sets bit `index`.
pub fn set_bit_true(bits: &mut [usize], index: usize)
    requires
        index < bit_len(old(bits)@),
    ensures
        final(bits)@ == with_bit(old(bits)@, index as int, true),
{
    let w: usize = usize::BITS as usize;
    let k: usize = index % w;
    proof {
        lemma_word_in_range(bits@.len(), index as int);
    }
    let word: usize = bits[index / w];
    bits[index / w] = word | (1usize << k);
}

/// Clears bit `index`.
pub fn set_bit_false(bits: &mut [usize], index: usize)
    requires
        index < bit_len(old(bits)@),
    ensures
        final(bits)@ == with_bit(old(bits)@, index as int, false),
{
    let w: usize = usize::BITS as usize;
    let k: usize = index % w;
    proof {
        lemma_word_in_range(bits@.len(), index as int);
    }
    let word: usize = bits[index / w];
    bits[index / w] = word & !(1usize << k);
}

} // verus!
