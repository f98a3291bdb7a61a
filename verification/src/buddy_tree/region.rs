use crate::buddy_tree::index::{
    cell_count, first_cell, lemma_block_in_region, lemma_pow2_monotone, level_of, level_span,
    overlaps, span,
};
use crate::memory::is_power_of_two;
use vstd::arithmetic::div_mod::{lemma_fundamental_div_mod, lemma_mod_multiples_basic};
use vstd::arithmetic::power2::{
    lemma_pow2_adds, lemma_pow2_pos, lemma_pow2_strictly_increases, lemma_pow2_subtracts, pow2,
};
use vstd::prelude::*;

verus! {

/// Size in bytes of a block of `level` in a region of `heap_size` bytes.
pub open spec fn block_bytes(heap_size: int, level: nat) -> int {
    heap_size / pow2(level) as int
}

/// Size in bytes of a smallest block of a tree of `levels` levels.
pub open spec fn cell_bytes(heap_size: int, levels: nat) -> int {
    block_bytes(heap_size, (levels - 1) as nat)
}

/// Address of the first byte of block `i`.
pub open spec fn address_of(heap_start: int, heap_size: int, levels: nat, i: nat) -> int {
    heap_start + first_cell(levels, i) * cell_bytes(heap_size, levels)
}

/// A region that a tree of `levels` levels can manage: it does not start
/// at address zero, its size is a power of two, it is aligned to its
/// size, it ends inside the address space, and a smallest block has at
/// least one byte.
pub open spec fn region_ok(heap_start: int, heap_size: int, levels: nat) -> bool {
    &&& heap_start > 0
    &&& is_power_of_two(heap_size)
    &&& heap_start % heap_size == 0
    &&& heap_start + heap_size <= usize::MAX
    &&& 1 <= levels < usize::BITS
    &&& cell_bytes(heap_size, levels) >= 1
}

/// `a` is a multiple of `m` exactly if it is `m` times its quotient.
pub proof fn lemma_multiple(a: int, m: int)
    requires
        m > 0,
    ensures
        a % m == 0 <==> a == m * (a / m),
{
    lemma_fundamental_div_mod(a, m);
    if a == m * (a / m) {
        lemma_mod_multiples_basic(a / m, m);
        assert((a / m) * m == m * (a / m)) by (nonlinear_arith);
    }
}

/// A sum of two multiples of `m`, and a multiple of a multiple of `m`, is
/// a multiple of `m`.
pub proof fn lemma_multiples(a: int, b: int, q: int, m: int)
    requires
        m > 0,
        a % m == 0,
        b % m == 0,
    ensures
        (a + b) % m == 0,
        (a * q) % m == 0,
{
    lemma_multiple(a, m);
    lemma_multiple(b, m);
    let x = a / m;
    let y = b / m;
    assert(a + b == (x + y) * m) by (nonlinear_arith)
        requires
            a == m * x,
            b == m * y,
    ;
    lemma_mod_multiples_basic(x + y, m);
    assert(a * q == (x * q) * m) by (nonlinear_arith)
        requires
            a == m * x,
    ;
    lemma_mod_multiples_basic(x * q, m);
}

/// The sizes of the levels: the root covers the region, every level
/// halves the one above, and a block of any level is a whole number of
/// smallest blocks, as many as its span.
pub proof fn lemma_block_bytes(heap_size: int, levels: nat, level: nat)
    requires
        is_power_of_two(heap_size),
        levels >= 1,
        cell_bytes(heap_size, levels) >= 1,
        level < levels,
    ensures
        block_bytes(heap_size, 0) == heap_size,
        block_bytes(heap_size, level) == cell_bytes(heap_size, levels) * level_span(levels, level),
        block_bytes(heap_size, level) >= cell_bytes(heap_size, levels),
        heap_size == cell_bytes(heap_size, levels) * cell_count(levels),
        heap_size % block_bytes(heap_size, level) == 0,
        heap_size == block_bytes(heap_size, level) * pow2(level),
        level + 1 < levels ==> block_bytes(heap_size, level) == 2 * block_bytes(
            heap_size,
            level + 1,
        ),
        is_power_of_two(block_bytes(heap_size, level)),
        block_bytes(heap_size, level) <= heap_size,
{
    let k = choose|k: nat| heap_size == #[trigger] pow2(k);
    let top = (levels - 1) as nat;
    vstd::arithmetic::power2::lemma2_to64();
    lemma_pow2_pos(top);
    lemma_pow2_pos(level);
    if k < top {
        lemma_pow2_strictly_increases(k, top);
        vstd::arithmetic::div_mod::lemma_basic_div(heap_size, pow2(top) as int);
        assert(false);
    }
    lemma_pow2_subtracts(top, k);
    lemma_pow2_subtracts(level, k);
    lemma_pow2_subtracts(0, k);
    lemma_pow2_adds((k - top) as nat, (top - level) as nat);
    lemma_pow2_adds((k - top) as nat, top);
    lemma_pow2_adds((k - level) as nat, level);
    assert((k - top) + (top - level) == k - level);
    lemma_pow2_pos((k - level) as nat);
    lemma_pow2_pos((k - top) as nat);
    lemma_pow2_pos((top - level) as nat);
    lemma_mod_multiples_basic(pow2(level) as int, pow2((k - level) as nat) as int);
    assert(pow2((k - level) as nat) * pow2(level) == pow2(level) * pow2((k - level) as nat))
        by (nonlinear_arith);
    if level + 1 < levels {
        lemma_pow2_subtracts(level + 1, k);
        vstd::arithmetic::power2::lemma_pow2_unfold((k - level) as nat);
    }
    assert(block_bytes(heap_size, level) >= cell_bytes(heap_size, levels)) by (nonlinear_arith)
        requires
            block_bytes(heap_size, level) == cell_bytes(heap_size, levels) * level_span(
                levels,
                level,
            ),
            level_span(levels, level) >= 1,
            cell_bytes(heap_size, levels) >= 1,
    ;
    lemma_pow2_monotone((k - level) as nat, k);
}

/// A block lies inside the region and starts at a multiple of its size.
pub proof fn lemma_address(heap_start: int, heap_size: int, levels: nat, i: nat)
    requires
        region_ok(heap_start, heap_size, levels),
        level_of(i) < levels,
    ensures
        heap_start <= address_of(heap_start, heap_size, levels, i),
        address_of(heap_start, heap_size, levels, i) + block_bytes(heap_size, level_of(i))
            <= heap_start + heap_size,
        address_of(heap_start, heap_size, levels, i) % block_bytes(heap_size, level_of(i)) == 0,
        address_of(heap_start, heap_size, levels, i) > 0,
        (address_of(heap_start, heap_size, levels, i) - heap_start) / cell_bytes(
            heap_size,
            levels,
        ) == first_cell(levels, i),
        (address_of(heap_start, heap_size, levels, i) - heap_start) % cell_bytes(
            heap_size,
            levels,
        ) == 0,
{
    let level = level_of(i);
    let cb = cell_bytes(heap_size, levels);
    let bb = block_bytes(heap_size, level);
    let c = first_cell(levels, i) as int;
    let s = span(levels, i) as int;
    lemma_block_bytes(heap_size, levels, level);
    lemma_block_in_region(levels, i);
    assert(c * cb >= 0) by (nonlinear_arith)
        requires
            c >= 0,
            cb >= 1,
    ;
    assert(c * cb + bb <= heap_size) by (nonlinear_arith)
        requires
            c + s <= cell_count(levels),
            bb == cb * s,
            heap_size == cb * cell_count(levels),
            cb >= 1,
    ;
    // the offset is a multiple of the block size
    lemma_multiple(c, s);
    let q = c / s;
    assert(c * cb == bb * q) by (nonlinear_arith)
        requires
            c == s * q,
            bb == cb * s,
    ;
    lemma_mod_multiples_basic(q, bb);
    assert(q * bb == bb * q) by (nonlinear_arith);
    // the base is a multiple of the block size
    lemma_multiple(heap_start, heap_size);
    let h = heap_start / heap_size;
    assert(heap_start == bb * (pow2(level) * h)) by (nonlinear_arith)
        requires
            heap_start == heap_size * h,
            heap_size == bb * pow2(level),
    ;
    lemma_mod_multiples_basic(pow2(level) * h, bb);
    assert((pow2(level) * h) * bb == bb * (pow2(level) * h)) by (nonlinear_arith);
    lemma_multiples(heap_start, c * cb, 1, bb);
    vstd::arithmetic::div_mod::lemma_div_multiples_vanish(c, cb);
    lemma_mod_multiples_basic(c, cb);
    assert(c * cb == cb * c) by (nonlinear_arith);
}

/// Blocks that have no cell in common have no byte in common.
pub proof fn lemma_addresses_disjoint(
    heap_start: int,
    heap_size: int,
    levels: nat,
    a: nat,
    b: nat,
)
    requires
        region_ok(heap_start, heap_size, levels),
        level_of(a) < levels,
        level_of(b) < levels,
        !overlaps(levels, a, b),
    ensures
        address_of(heap_start, heap_size, levels, a) + block_bytes(heap_size, level_of(a))
            <= address_of(heap_start, heap_size, levels, b) || address_of(
            heap_start,
            heap_size,
            levels,
            b,
        ) + block_bytes(heap_size, level_of(b)) <= address_of(heap_start, heap_size, levels, a),
{
    let cb = cell_bytes(heap_size, levels);
    lemma_block_bytes(heap_size, levels, level_of(a));
    lemma_block_bytes(heap_size, levels, level_of(b));
    let ca = first_cell(levels, a) as int;
    let sa = span(levels, a) as int;
    let cb2 = first_cell(levels, b) as int;
    let sb = span(levels, b) as int;
    if ca + sa <= cb2 {
        assert(ca * cb + cb * sa <= cb2 * cb) by (nonlinear_arith)
            requires
                ca + sa <= cb2,
                cb >= 1,
        ;
    } else {
        assert(cb2 * cb + cb * sb <= ca * cb) by (nonlinear_arith)
            requires
                cb2 + sb <= ca,
                cb >= 1,
        ;
    }
}

/// The level that serves a request of `requested` bytes: the finest of
/// the first `levels` levels whose blocks hold that many bytes, and the
/// root level if none does.
pub open spec fn best_level(heap_size: int, levels: nat, requested: int) -> nat
    decreases levels,
{
    if levels <= 1 {
        0
    } else if block_bytes(heap_size, (levels - 1) as nat) >= requested {
        (levels - 1) as nat
    } else {
        best_level(heap_size, (levels - 1) as nat, requested)
    }
}

/// A deeper level has blocks that are no larger.
pub proof fn lemma_block_bytes_monotone(heap_size: int, a: nat, b: nat)
    requires
        heap_size >= 0,
        a <= b,
    ensures
        block_bytes(heap_size, a) >= block_bytes(heap_size, b),
{
    lemma_pow2_pos(a);
    lemma_pow2_pos(b);
    lemma_pow2_monotone(a, b);
    vstd::arithmetic::div_mod::lemma_div_is_ordered_by_denominator(
        heap_size,
        pow2(a) as int,
        pow2(b) as int,
    );
}

/// A level whose blocks hold the request, and below which the blocks are
/// too small or there is no level, is the best level.
pub proof fn lemma_best_level(heap_size: int, levels: nat, requested: int, level: nat)
    requires
        heap_size >= 0,
        level < levels,
        block_bytes(heap_size, level) >= requested,
        level + 1 == levels || block_bytes(heap_size, level + 1) < requested,
    ensures
        best_level(heap_size, levels, requested) == level,
    decreases levels,
{
    if levels > 1 && level + 1 < levels {
        lemma_block_bytes_monotone(heap_size, level + 1, (levels - 1) as nat);
        lemma_best_level(heap_size, (levels - 1) as nat, requested, level);
    }
}

/// A request for exactly half the region is served at level 1.
pub proof fn lemma_half_is_level_one(heap_size: int, levels: nat)
    requires
        is_power_of_two(heap_size),
        levels >= 2,
        cell_bytes(heap_size, levels) >= 1,
    ensures
        block_bytes(heap_size, 1) == heap_size / 2,
        best_level(heap_size, levels, heap_size / 2) == 1,
{
    vstd::arithmetic::power2::lemma2_to64();
    lemma_block_bytes(heap_size, levels, 1);
    if levels > 2 {
        lemma_block_bytes(heap_size, levels, 2);
    }
    lemma_best_level(heap_size, levels, heap_size / 2, 1);
}

/// Of two powers of two the smaller divides the larger, so a multiple of
/// the larger is a multiple of the smaller.
pub proof fn lemma_aligned_to_smaller(address: int, large: int, small: int)
    requires
        is_power_of_two(large),
        is_power_of_two(small),
        small <= large,
        address % large == 0,
    ensures
        address % small == 0,
{
    let a = choose|k: nat| large == #[trigger] pow2(k);
    let b = choose|k: nat| small == #[trigger] pow2(k);
    lemma_pow2_pos(a);
    lemma_pow2_pos(b);
    if a < b {
        lemma_pow2_strictly_increases(a, b);
    }
    lemma_pow2_adds((a - b) as nat, b);
    let q = pow2((a - b) as nat) as int;
    lemma_multiple(address, large);
    let m = address / large;
    assert(address == small * (q * m)) by (nonlinear_arith)
        requires
            address == large * m,
            large == q * small,
    ;
    lemma_mod_multiples_basic(q * m, small);
    assert((q * m) * small == small * (q * m)) by (nonlinear_arith);
}

} // verus!
