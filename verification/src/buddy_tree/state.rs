use crate::buddy_tree::index::{
    ancestor, buddy, cell_count, left_child, lemma_ancestor_level, lemma_children,
    lemma_children_in_tree, lemma_level_in_tree, lemma_overlap_nested, lemma_parent,
    lemma_span_halves, level_of, node_count, overlaps, parent, right_child, span,
};
use vstd::prelude::*;

verus! {

/// What a block of the tree is at a given moment.
#[derive(Clone, Copy, PartialEq, Eq, Structural, Debug)]
pub enum BlockState {
    /// Divided: each half is itself split, free or live.
    Split,
    /// Free as a whole and listed on the free list of its level.
    Free,
    /// Handed out as one allocation.
    Live,
    /// Part of an enclosing block that is free or live.
    Inner,
}

/// Whether block `i` is free or live, that is, a block of the partition
/// of the region.
pub open spec fn is_block(st: Seq<BlockState>, i: int) -> bool {
    st[i] is Free || st[i] is Live
}

/// The rule that ties block `i` to its two halves: a split block has
/// halves that are blocks or split themselves, and never two free ones
/// (they would have been merged); any other block has halves that are
/// inner. A block of the last level is never split.
pub open spec fn node_ok(st: Seq<BlockState>, i: int) -> bool {
    if 2 * i + 2 < st.len() {
        if st[i] is Split {
            &&& !(st[2 * i + 1] is Inner)
            &&& !(st[2 * i + 2] is Inner)
            &&& !(st[2 * i + 1] is Free && st[2 * i + 2] is Free)
        } else {
            &&& st[2 * i + 1] is Inner
            &&& st[2 * i + 2] is Inner
        }
    } else {
        !(st[i] is Split)
    }
}

/// A consistent tree of `levels` levels: the root is no inner block and
/// every block obeys `node_ok`.
pub open spec fn tree_ok(st: Seq<BlockState>, levels: nat) -> bool {
    &&& levels >= 1
    &&& st.len() == node_count(levels)
    &&& !(st[0] is Inner)
    &&& forall|i: int| 0 <= i < st.len() ==> #[trigger] node_ok(st, i)
}

/// The tree in which the whole region is one free block.
pub open spec fn initial_state(levels: nat) -> Seq<BlockState> {
    Seq::new(
        node_count(levels),
        |i: int|
            if i == 0 {
                BlockState::Free
            } else {
                BlockState::Inner
            },
    )
}

/// The initial tree is consistent.
pub proof fn lemma_initial_ok(levels: nat)
    requires
        levels >= 1,
    ensures
        tree_ok(initial_state(levels), levels),
{
    vstd::arithmetic::power2::lemma_pow2_pos(levels);
    lemma_level_in_tree(0, levels);
}

/// The parent of a block of the tree is in the tree, with both its halves.
pub proof fn lemma_parent_in_tree(levels: nat, i: nat)
    requires
        levels >= 1,
        0 < i < node_count(levels),
    ensures
        parent(i) < i,
        right_child(parent(i)) < node_count(levels),
        buddy(i) < node_count(levels),
        i == left_child(parent(i)) || i == right_child(parent(i)),
        buddy(i) == left_child(parent(i)) || buddy(i) == right_child(parent(i)),
{
    lemma_parent(i);
    lemma_level_in_tree(i, levels);
    lemma_level_in_tree(parent(i), levels);
    lemma_children_in_tree(parent(i), levels);
}

/// Every block strictly below a block that is not split is inner.
pub proof fn lemma_below_unsplit(st: Seq<BlockState>, levels: nat, a: nat, b: nat, up: nat)
    requires
        tree_ok(st, levels),
        b < node_count(levels),
        0 < up <= level_of(b),
        ancestor(b, up) == a,
        !(st[a as int] is Split),
    ensures
        st[b as int] is Inner,
    decreases up,
{
    lemma_parent(b);
    lemma_ancestor_level(b, up);
    let p = parent(b);
    lemma_parent_in_tree(levels, b);
    assert(node_ok(st, p as int));
    if up > 1 {
        lemma_below_unsplit(st, levels, a, p, (up - 1) as nat);
    }
}

/// Every block strictly above a block that is not inner is split.
pub proof fn lemma_above_block(st: Seq<BlockState>, levels: nat, b: nat, up: nat)
    requires
        tree_ok(st, levels),
        b < node_count(levels),
        0 < up <= level_of(b),
        !(st[b as int] is Inner),
    ensures
        st[ancestor(b, up) as int] is Split,
{
    let a = ancestor(b, up);
    lemma_ancestor_level(b, up);
    if !(st[a as int] is Split) {
        lemma_below_unsplit(st, levels, a, b, up);
    }
}

/// Two different blocks of the partition have no cell in common.
pub proof fn lemma_blocks_disjoint(st: Seq<BlockState>, levels: nat, a: nat, b: nat)
    requires
        tree_ok(st, levels),
        a < node_count(levels),
        b < node_count(levels),
        a != b,
        is_block(st, a as int),
        is_block(st, b as int),
    ensures
        !overlaps(levels, a, b),
{
    lemma_level_in_tree(a, levels);
    lemma_level_in_tree(b, levels);
    if overlaps(levels, a, b) {
        if level_of(a) <= level_of(b) {
            lemma_overlap_nested(levels, a, b);
            lemma_below_unsplit(st, levels, a, b, (level_of(b) - level_of(a)) as nat);
        } else {
            lemma_overlap_nested(levels, b, a);
            lemma_below_unsplit(st, levels, b, a, (level_of(a) - level_of(b)) as nat);
        }
    }
}

/// In a consistent tree a free block is never beside a free buddy: the
/// two would have been merged into their parent.
pub proof fn lemma_no_free_buddies(st: Seq<BlockState>, levels: nat, i: nat)
    requires
        tree_ok(st, levels),
        0 < i < node_count(levels),
        st[i as int] is Free,
    ensures
        !(st[buddy(i) as int] is Free),
{
    lemma_parent(i);
    lemma_parent_in_tree(levels, i);
    assert(node_ok(st, parent(i) as int));
}

/// Number of cells in blocks of state `which` at or below block `i`.
pub open spec fn cells_in(st: Seq<BlockState>, levels: nat, i: nat, which: BlockState) -> nat
    decreases st.len() - i,
{
    if i >= st.len() {
        0
    } else {
        let own = if st[i as int] == which {
            span(levels, i)
        } else {
            0
        };
        if right_child(i) < st.len() {
            own + cells_in(st, levels, left_child(i), which) + cells_in(
                st,
                levels,
                right_child(i),
                which,
            )
        } else {
            own
        }
    }
}

/// Below an inner block nothing is free or live; at or below any other
/// block the free and the live blocks together cover exactly its span.
pub proof fn lemma_cells_in(st: Seq<BlockState>, levels: nat, i: nat)
    requires
        tree_ok(st, levels),
        i < node_count(levels),
    ensures
        cells_in(st, levels, i, BlockState::Free) + cells_in(st, levels, i, BlockState::Live) == (
        if st[i as int] is Inner {
            0
        } else {
            span(levels, i)
        }),
    decreases st.len() - i,
{
    assert(node_ok(st, i as int));
    lemma_children_in_tree(i, levels);
    lemma_level_in_tree(i, levels);
    if right_child(i) < st.len() {
        lemma_cells_in(st, levels, left_child(i));
        lemma_cells_in(st, levels, right_child(i));
        lemma_span_halves(levels, i);
    }
}

/// The free and the live blocks of a consistent tree cover the region
/// exactly once.
pub proof fn lemma_cells_conserved(st: Seq<BlockState>, levels: nat)
    requires
        tree_ok(st, levels),
    ensures
        cells_in(st, levels, 0, BlockState::Free) + cells_in(st, levels, 0, BlockState::Live)
            == cell_count(levels),
{
    vstd::arithmetic::power2::lemma_pow2_pos(levels);
    lemma_level_in_tree(0, levels);
    lemma_cells_in(st, levels, 0);
}

/// The tree after block `i` was divided: `i` is split, its lower half is
/// live and its upper half free.
pub open spec fn split_once(st: Seq<BlockState>, i: nat) -> Seq<BlockState> {
    st.update(i as int, BlockState::Split).update(
        right_child(i) as int,
        BlockState::Free,
    ).update(left_child(i) as int, BlockState::Live)
}

/// The tree after live block `i` was joined with its free buddy: both are
/// inner and their parent is live.
pub open spec fn merge_once(st: Seq<BlockState>, i: nat) -> Seq<BlockState> {
    st.update(i as int, BlockState::Inner).update(buddy(i) as int, BlockState::Inner).update(
        parent(i) as int,
        BlockState::Live,
    )
}

/// Turning a free block live, or a live block free beside a buddy that is
/// not free, keeps the tree consistent.
pub proof fn lemma_flip_ok(st: Seq<BlockState>, levels: nat, i: nat, to: BlockState)
    requires
        tree_ok(st, levels),
        i < node_count(levels),
        is_block(st, i as int),
        to is Live || (to is Free && (i == 0 || !(st[buddy(i) as int] is Free))),
    ensures
        tree_ok(st.update(i as int, to), levels),
{
    let st2 = st.update(i as int, to);
    if i > 0 {
        lemma_parent_in_tree(levels, i);
        lemma_parent(i);
    }
    assert forall|j: int| 0 <= j < st2.len() implies #[trigger] node_ok(st2, j) by {
        assert(node_ok(st, j));
    }
}

/// Dividing a live block above the last level keeps the tree consistent.
pub proof fn lemma_split_ok(st: Seq<BlockState>, levels: nat, i: nat)
    requires
        tree_ok(st, levels),
        i < node_count(levels),
        level_of(i) + 1 < levels,
        st[i as int] is Live,
    ensures
        tree_ok(split_once(st, i), levels),
{
    let st2 = split_once(st, i);
    lemma_children_in_tree(i, levels);
    lemma_children(i);
    lemma_children_in_tree(left_child(i), levels);
    lemma_children_in_tree(right_child(i), levels);
    assert(node_ok(st, i as int));
    assert(node_ok(st, left_child(i) as int));
    assert(node_ok(st, right_child(i) as int));
    assert forall|j: int| 0 <= j < st2.len() implies #[trigger] node_ok(st2, j) by {
        assert(node_ok(st, j));
    }
}

/// Joining a live block with its free buddy keeps the tree consistent.
pub proof fn lemma_merge_ok(st: Seq<BlockState>, levels: nat, i: nat)
    requires
        tree_ok(st, levels),
        0 < i < node_count(levels),
        st[i as int] is Live,
        st[buddy(i) as int] is Free,
    ensures
        tree_ok(merge_once(st, i), levels),
        st[parent(i) as int] is Split,
{
    let st2 = merge_once(st, i);
    let p = parent(i);
    let b = buddy(i);
    lemma_parent(i);
    lemma_parent_in_tree(levels, i);
    lemma_children_in_tree(i, levels);
    lemma_children_in_tree(b, levels);
    assert(node_ok(st, p as int));
    assert(node_ok(st, i as int));
    assert(node_ok(st, b as int));
    if p > 0 {
        lemma_parent(p);
        lemma_parent_in_tree(levels, p);
        assert(node_ok(st, parent(p) as int));
    }
    assert forall|j: int| 0 <= j < st2.len() implies #[trigger] node_ok(st2, j) by {
        assert(node_ok(st, j));
    }
}

/// The parent of a block that is not inner is split, and its buddy is no
/// inner block either.
pub proof fn lemma_parent_split(st: Seq<BlockState>, levels: nat, i: nat)
    requires
        tree_ok(st, levels),
        0 < i < node_count(levels),
        !(st[i as int] is Inner),
    ensures
        st[parent(i) as int] is Split,
        !(st[buddy(i) as int] is Inner),
{
    lemma_parent(i);
    lemma_parent_in_tree(levels, i);
    assert(node_ok(st, parent(i) as int));
}

} // verus!
