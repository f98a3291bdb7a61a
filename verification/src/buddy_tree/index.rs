use vstd::arithmetic::power2::{
    lemma_pow2_pos, lemma_pow2_strictly_increases, lemma_pow2_unfold, pow2,
};
use vstd::prelude::*;

verus! {

/// Depth of tree index `i`: the root, index 0, is at level 0 and the
/// children of a block are one level below it.
pub open spec fn level_of(i: nat) -> nat
    decreases i,
{
    if i == 0 {
        0
    } else {
        1 + level_of(parent(i))
    }
}

/// Tree index of the block that `i` is a half of; `i` is not the root.
pub open spec fn parent(i: nat) -> nat {
    ((i - 1) / 2) as nat
}

/// Tree index of the lower half of block `i`.
pub open spec fn left_child(i: nat) -> nat {
    2 * i + 1
}

/// Tree index of the upper half of block `i`.
pub open spec fn right_child(i: nat) -> nat {
    2 * i + 2
}

/// A block other than the root is a lower half exactly if its index is odd.
pub open spec fn is_left(i: nat) -> bool {
    i % 2 == 1
}

/// Tree index of the other half of the parent of `i`; `i` is not the root.
pub open spec fn buddy(i: nat) -> nat {
    if is_left(i) {
        i + 1
    } else {
        (i - 1) as nat
    }
}

/// Number of blocks in a tree of `levels` levels.
pub open spec fn node_count(levels: nat) -> nat {
    (pow2(levels) - 1) as nat
}

/// Number of smallest blocks ("cells") in a tree of `levels` levels.
pub open spec fn cell_count(levels: nat) -> nat {
    pow2((levels - 1) as nat)
}

/// Number of cells that a block at `level` covers.
pub open spec fn level_span(levels: nat, level: nat) -> nat {
    pow2((levels - 1 - level) as nat)
}

/// Number of cells that block `i` covers.
pub open spec fn span(levels: nat, i: nat) -> nat {
    level_span(levels, level_of(i))
}

/// The first cell of block `i`: a lower half starts where its parent
/// starts, an upper half one span further.
pub open spec fn first_cell(levels: nat, i: nat) -> nat
    decreases i,
{
    if i == 0 {
        0
    } else if is_left(i) {
        first_cell(levels, parent(i))
    } else {
        first_cell(levels, parent(i)) + span(levels, i)
    }
}

/// The block `up` levels above `i`.
pub open spec fn ancestor(i: nat, up: nat) -> nat
    decreases up,
{
    if up == 0 || i == 0 {
        i
    } else {
        ancestor(parent(i), (up - 1) as nat)
    }
}

/// The block reached from `i` by taking the lower half `down` times.
pub open spec fn leftmost(i: nat, down: nat) -> nat
    decreases down,
{
    if down == 0 {
        i
    } else {
        left_child(leftmost(i, (down - 1) as nat))
    }
}

/// Both halves of a block are one level below it, and it is their parent.
pub proof fn lemma_children(i: nat)
    ensures
        parent(left_child(i)) == i,
        parent(right_child(i)) == i,
        level_of(left_child(i)) == level_of(i) + 1,
        level_of(right_child(i)) == level_of(i) + 1,
        is_left(left_child(i)),
        !is_left(right_child(i)),
        buddy(left_child(i)) == right_child(i),
        buddy(right_child(i)) == left_child(i),
{
}

/// A block other than the root is one of the two halves of its parent, one
/// level below it, and its buddy is the other half.
pub proof fn lemma_parent(i: nat)
    requires
        i > 0,
    ensures
        level_of(i) == level_of(parent(i)) + 1,
        parent(i) < i,
        is_left(i) ==> i == left_child(parent(i)),
        !is_left(i) ==> i == right_child(parent(i)),
        parent(buddy(i)) == parent(i),
        buddy(i) > 0,
        buddy(buddy(i)) == i,
        buddy(i) != i,
        level_of(buddy(i)) == level_of(i),
{
}

/// The indices at level `l` are those from `2^l - 1` up to `2^(l+1) - 2`.
pub proof fn lemma_level_bounds(i: nat)
    ensures
        pow2(level_of(i)) <= i + 1 < pow2(level_of(i) + 1),
    decreases i,
{
    vstd::arithmetic::power2::lemma2_to64();
    if i == 0 {
    } else {
        lemma_level_bounds(parent(i));
        lemma_pow2_unfold(level_of(i));
        lemma_pow2_unfold(level_of(i) + 1);
    }
}

/// `2^a <= 2^b` for `a <= b`.
pub proof fn lemma_pow2_monotone(a: nat, b: nat)
    requires
        a <= b,
    ensures
        pow2(a) <= pow2(b),
{
    if a < b {
        lemma_pow2_strictly_increases(a, b);
    }
}

/// An index belongs to a tree of `levels` levels exactly if its level is
/// below `levels`.
pub proof fn lemma_level_in_tree(i: nat, levels: nat)
    ensures
        level_of(i) < levels <==> i < node_count(levels),
{
    lemma_level_bounds(i);
    lemma_pow2_pos(levels);
    if level_of(i) < levels {
        lemma_pow2_monotone(level_of(i) + 1, levels);
    } else {
        lemma_pow2_monotone(levels, level_of(i));
    }
}

/// A block above the last level has both halves in the tree; a block of
/// the last level has none.
pub proof fn lemma_children_in_tree(i: nat, levels: nat)
    requires
        levels >= 1,
        i < node_count(levels),
    ensures
        level_of(i) + 1 < levels <==> right_child(i) < node_count(levels),
        level_of(i) + 1 < levels <==> left_child(i) < node_count(levels),
{
    lemma_children(i);
    lemma_level_in_tree(left_child(i), levels);
    lemma_level_in_tree(right_child(i), levels);
}

/// A block covers twice as many cells as each of its halves.
pub proof fn lemma_span_halves(levels: nat, i: nat)
    requires
        level_of(i) + 1 < levels,
    ensures
        span(levels, left_child(i)) == span(levels, right_child(i)),
        span(levels, i) == 2 * span(levels, left_child(i)),
        first_cell(levels, left_child(i)) == first_cell(levels, i),
        first_cell(levels, right_child(i)) == first_cell(levels, i) + span(levels, right_child(i)),
        span(levels, i) > 0,
        span(levels, left_child(i)) > 0,
{
    lemma_children(i);
    lemma_pow2_unfold((levels - 1 - level_of(i)) as nat);
    lemma_pow2_pos((levels - 1 - level_of(i)) as nat);
    lemma_pow2_pos((levels - 2 - level_of(i)) as nat);
}

/// A multiple of `2 * s` is a multiple of `s`, and stays one when `s` is
/// added to it.
pub proof fn lemma_multiple_of_double(c: int, s: int)
    requires
        s > 0,
        c % (2 * s) == 0,
    ensures
        c % s == 0,
        (c + s) % s == 0,
{
    let q = c / (2 * s);
    vstd::arithmetic::div_mod::lemma_fundamental_div_mod(c, 2 * s);
    assert(c == s * (2 * q)) by (nonlinear_arith)
        requires
            c == (2 * s) * q,
    ;
    vstd::arithmetic::div_mod::lemma_mod_multiples_basic(2 * q, s);
    assert(c + s == s * (2 * q + 1)) by (nonlinear_arith)
        requires
            c == s * (2 * q),
    ;
    vstd::arithmetic::div_mod::lemma_mod_multiples_basic(2 * q + 1, s);
    assert((2 * q) * s == s * (2 * q)) by (nonlinear_arith);
    assert((2 * q + 1) * s == s * (2 * q + 1)) by (nonlinear_arith);
}

/// A block lies inside the region and starts at a multiple of its size.
pub proof fn lemma_block_in_region(levels: nat, i: nat)
    requires
        level_of(i) < levels,
    ensures
        first_cell(levels, i) + span(levels, i) <= cell_count(levels),
        first_cell(levels, i) % span(levels, i) == 0,
        span(levels, i) > 0,
    decreases i,
{
    lemma_pow2_pos((levels - 1 - level_of(i)) as nat);
    if i == 0 {
    } else {
        let p = parent(i);
        lemma_parent(i);
        lemma_block_in_region(levels, p);
        lemma_span_halves(levels, p);
        let s = span(levels, i) as int;
        let c = first_cell(levels, p) as int;
        lemma_multiple_of_double(c, s);
    }
}

/// Whether the cell ranges of blocks `a` and `b` have a cell in common.
pub open spec fn overlaps(levels: nat, a: nat, b: nat) -> bool {
    &&& first_cell(levels, a) < first_cell(levels, b) + span(levels, b)
    &&& first_cell(levels, b) < first_cell(levels, a) + span(levels, a)
}

/// A half lies inside the block that it is a half of.
pub proof fn lemma_inside_parent(levels: nat, i: nat)
    requires
        i > 0,
        level_of(i) < levels,
    ensures
        first_cell(levels, parent(i)) <= first_cell(levels, i),
        first_cell(levels, i) + span(levels, i) <= first_cell(levels, parent(i)) + span(
            levels,
            parent(i),
        ),
{
    lemma_parent(i);
    lemma_span_halves(levels, parent(i));
}

/// Two different blocks of one level have no cell in common.
pub proof fn lemma_level_disjoint(levels: nat, a: nat, b: nat)
    requires
        level_of(a) == level_of(b),
        level_of(a) < levels,
        a != b,
    ensures
        !overlaps(levels, a, b),
    decreases a,
{
    if a == 0 || b == 0 {
    } else {
        lemma_parent(a);
        lemma_parent(b);
        lemma_span_halves(levels, parent(a));
        lemma_span_halves(levels, parent(b));
        if parent(a) != parent(b) {
            lemma_level_disjoint(levels, parent(a), parent(b));
        }
    }
}

/// Two blocks with a cell in common are nested: the one on the higher
/// level is an ancestor of the other, or they are the same block.
pub proof fn lemma_overlap_nested(levels: nat, a: nat, b: nat)
    requires
        level_of(a) <= level_of(b),
        level_of(b) < levels,
        overlaps(levels, a, b),
    ensures
        a == ancestor(b, (level_of(b) - level_of(a)) as nat),
    decreases level_of(b) - level_of(a),
{
    if level_of(a) == level_of(b) {
        if a != b {
            lemma_level_disjoint(levels, a, b);
        }
    } else {
        lemma_parent(b);
        lemma_inside_parent(levels, b);
        lemma_overlap_nested(levels, a, parent(b));
    }
}

/// Going up `up` levels from a block at least that deep ends `up` levels
/// above it.
pub proof fn lemma_ancestor_level(i: nat, up: nat)
    requires
        up <= level_of(i),
    ensures
        level_of(ancestor(i, up)) == level_of(i) - up,
        ancestor(i, up) <= i,
        up > 0 ==> ancestor(i, up) < i,
        up > 0 ==> ancestor(i, up) == parent(ancestor(i, (up - 1) as nat)),
        up > 0 ==> ancestor(i, (up - 1) as nat) > 0,
    decreases up,
{
    if up > 0 {
        lemma_parent(i);
        lemma_ancestor_level(parent(i), (up - 1) as nat);
        lemma_ancestor_level(i, (up - 1) as nat);
        if up > 1 {
            assert(ancestor(i, (up - 1) as nat) == ancestor(parent(i), (up - 2) as nat));
            lemma_parent(ancestor(i, (up - 1) as nat));
        }
    }
}

/// Going up `up` levels is going up one level and then `up - 1` more, in
/// either order.
pub proof fn lemma_ancestor_step(i: nat, up: nat)
    requires
        0 < up <= level_of(i),
    ensures
        ancestor(i, up) == ancestor(parent(i), (up - 1) as nat),
        ancestor(i, up) == parent(ancestor(i, (up - 1) as nat)),
{
    lemma_ancestor_level(i, up);
}

} // verus!
