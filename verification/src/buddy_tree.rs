pub mod index;
pub mod laws;
pub mod links;
pub mod lists;
pub mod region;
pub mod state;

use crate::buddy_tree::index::{
    ancestor, buddy, cell_count, first_cell, left_child, leftmost, lemma_block_in_region,
    lemma_children, lemma_children_in_tree, lemma_level_in_tree, lemma_parent, lemma_span_halves,
    level_of, level_span, node_count, overlaps, parent, right_child, span,
};
use crate::buddy_tree::links::{
    bits_ok, expected_bit, lemma_bits_same, lemma_bits_step, lemma_links_push, lemma_links_remove,
    links_ok,
};
use crate::buddy_tree::lists::{FreeListNode, FreeLists};
use crate::buddy_tree::state::{
    cells_in, initial_state, lemma_above_block, lemma_blocks_disjoint, lemma_cells_conserved,
    lemma_flip_ok, lemma_initial_ok, lemma_merge_ok, lemma_no_free_buddies, lemma_parent_in_tree,
    lemma_parent_split, lemma_split_ok, merge_once, split_once, tree_ok, BlockState,
};
use crate::data_structures::bits::{bit_at, get_bit, set_bit_false, set_bit_true};
use crate::utils::new_bitmask_vec;
use vstd::prelude::*;

verus! {

/// The bookkeeping of a buddy allocator, in units of smallest blocks
/// ("cells"): which blocks of the binary tree are free, which are handed
/// out, and the free lists of each level.
pub struct BuddyTree {
    levels: usize,
    free_lists: FreeLists,
    free_tree: Vec<usize>,
    state: Ghost<Seq<BlockState>>,
}

/// The level from which a request for a block of level `target` is
/// served: the finest level up to `target` whose free list is not empty,
/// or -1 if there is none.
pub open spec fn source_level(lists: Seq<Seq<nat>>, target: int) -> int
    decreases target,
{
    if target < 0 {
        -1
    } else if lists[target].len() > 0 {
        target
    } else if target == 0 {
        -1
    } else {
        source_level(lists, target - 1)
    }
}

/// The tree after free or live block `i` was divided `down` times, each
/// time keeping the lower half and freeing the upper one, and the last
/// lower half was handed out.
pub open spec fn split_state(st: Seq<BlockState>, i: nat, down: nat) -> Seq<BlockState>
    decreases down,
{
    if down == 0 {
        st.update(i as int, BlockState::Live)
    } else {
        split_state(split_once(st, i), left_child(i), (down - 1) as nat)
    }
}

/// The free lists after block `i` of `level` was divided `down` times:
/// each upper half went to the head of the list of its level.
pub open spec fn split_lists(lists: Seq<Seq<nat>>, i: nat, level: int, down: nat) -> Seq<Seq<nat>>
    decreases down,
{
    if down == 0 {
        lists
    } else {
        split_lists(
            lists.update(level + 1, seq![right_child(i)] + lists[level + 1]),
            left_child(i),
            level + 1,
            (down - 1) as nat,
        )
    }
}

/// Whether releasing block `i` joins it with its buddy: it is not the
/// root and its buddy is free.
pub open spec fn merges(st: Seq<BlockState>, i: nat) -> bool {
    i > 0 && st[buddy(i) as int] is Free
}

/// The tree after live block `i` was released: it is joined with its
/// buddy as long as the buddy is free, and the block that results is
/// free.
pub open spec fn merge_state(st: Seq<BlockState>, i: nat) -> Seq<BlockState>
    decreases i,
{
    if merges(st, i) {
        merge_state(merge_once(st, i), parent(i))
    } else {
        st.update(i as int, BlockState::Free)
    }
}

/// The free lists after live block `i` was released: every buddy it was
/// joined with left its list, and the block that results went to the
/// head of the list of its level.
pub open spec fn merge_lists(lists: Seq<Seq<nat>>, st: Seq<BlockState>, i: nat) -> Seq<Seq<nat>>
    decreases i,
{
    let level = level_of(i) as int;
    if merges(st, i) {
        merge_lists(
            lists.update(level, lists[level].remove(lists[level].index_of(buddy(i)))),
            merge_once(st, i),
            parent(i),
        )
    } else {
        lists.update(level, seq![i] + lists[level])
    }
}

/// The block that a release of live block `i` leaves on a free list.
pub open spec fn merged_block(st: Seq<BlockState>, i: nat) -> nat
    decreases i,
{
    if merges(st, i) {
        merged_block(merge_once(st, i), parent(i))
    } else {
        i
    }
}

impl BuddyTree {
    /// Number of levels of the tree.
    pub closed spec fn levels(&self) -> nat {
        self.levels as nat
    }

    /// What each block of the tree is, by tree index.
    pub closed spec fn state(&self) -> Seq<BlockState> {
        self.state@
    }

    /// For each level the tree indices of the listed free blocks, head
    /// first.
    pub closed spec fn free_lists(&self) -> Seq<Seq<nat>> {
        self.free_lists@
    }

    /// The words of the free-tree bit-vector, one bit per tree index.
    pub closed spec fn free_tree(&self) -> Seq<usize> {
        self.free_tree@
    }

    /// Whether block `i` is free as a whole.
    pub open spec fn is_free(&self, i: nat) -> bool {
        i < node_count(self.levels()) && self.state()[i as int] is Free
    }

    /// Whether block `i` is handed out.
    pub open spec fn is_live(&self, i: nat) -> bool {
        i < node_count(self.levels()) && self.state()[i as int] is Live
    }

    /// The records behind the free lists are sound.
    pub closed spec fn lists_wf(&self) -> bool {
        &&& self.free_lists.wf()
        &&& self.free_lists.levels() == self.levels
    }

    /// Soundness of the tree while the bit of block `pending`, a live
    /// block whose release has begun, is already set.
    pub open spec fn wf_pending(&self, pending: Option<nat>) -> bool {
        &&& 1 <= self.levels() < usize::BITS
        &&& self.lists_wf()
        &&& tree_ok(self.state(), self.levels())
        &&& bits_ok(self.levels(), self.state(), self.free_tree(), pending)
        &&& links_ok(self.levels(), self.state(), self.free_lists())
    }

    /// The tree is consistent, the bit of a block is set exactly if the
    /// block is free or inner, and the free lists hold exactly the free
    /// blocks, each on the list of its level.
    pub open spec fn wf(&self) -> bool {
        self.wf_pending(None)
    }

    /// A tree of `levels` levels in which the whole region is one free
    /// block.
    pub fn new(levels: usize) -> (r: Self)
        requires
            1 <= levels < usize::BITS,
        ensures
            r.wf(),
            r.levels() == levels,
            r.state() == initial_state(levels as nat),
            r.free_lists() == Seq::new(levels as nat, |l: int| Seq::<nat>::empty()).update(
                0,
                seq![0nat],
            ),
    {
        proof {
            vstd::bits::lemma_usize_pow2_no_overflow(levels as nat);
            vstd::bits::lemma_usize_shl_is_mul(1, levels);
            vstd::arithmetic::power2::lemma2_to64();
            vstd::arithmetic::power2::lemma2_to64_rest();
            crate::buddy_tree::index::lemma_pow2_monotone(levels as nat, (usize::BITS - 1) as nat);
            lemma_initial_ok(levels as nat);
            lemma_level_in_tree(0, levels as nat);
            vstd::arithmetic::power2::lemma_pow2_pos(levels as nat);
        }
        let nodes: usize = (1usize << levels) - 1;
        let mut free_lists = FreeLists::new(levels);
        proof {
            assert(!free_lists.uses_cell(0));
        }
        free_lists.push_front(0, 0, 0);
        let free_tree = new_bitmask_vec(nodes, true);
        let r = BuddyTree {
            levels,
            free_lists,
            free_tree,
            state: Ghost(initial_state(levels as nat)),
        };
        proof {
            assert(r.free_lists()[0] =~= seq![0nat]);
            assert(r.free_lists()[0][0] == 0);
            assert forall|i: int|
                0 <= i < node_count(r.levels()) && #[trigger] r.state()[i] is Free implies r.free_lists()[level_of(
                i as nat,
            ) as int].contains(i as nat) by {
                assert(i == 0);
            }
            assert forall|l: int| 0 <= l < levels implies (#[trigger] r.free_lists()[l]).no_duplicates() by {}
        }
        r
    }

    /// Number of levels of the tree.
    pub fn level_count(&self) -> (r: usize)
        ensures
            r == self.levels(),
    {
        self.levels
    }

    /// The first cell of the head of the free list of `level`; `None` if
    /// the list is empty.
    pub fn free_list_head(&self, level: usize) -> (r: Option<usize>)
        requires
            self.wf(),
            level < self.levels(),
        ensures
            r is None <==> self.free_lists()[level as int].len() == 0,
            r is Some ==> r.unwrap() == first_cell(
                self.levels(),
                self.free_lists()[level as int][0],
            ),
    {
        self.free_lists.head(level)
    }

    /// Whether `node` names block `index` at position `position` of the
    /// free list of its level, with the blocks after and before it there.
    pub open spec fn is_record(&self, node: FreeListNode, level: int, position: int) -> bool {
        let list = self.free_lists()[level];
        &&& node.free_tree_index == list[position]
        &&& node.next == (if position + 1 < list.len() {
            Some(first_cell(self.levels(), list[position + 1]) as usize)
        } else {
            None
        })
        &&& node.previous == (if position > 0 {
            Some(first_cell(self.levels(), list[position - 1]) as usize)
        } else {
            None
        })
    }

    /// The record of free block `index`, which starts at `cell`: it names
    /// the block and its neighbours on the free list of its level. The
    /// head of a list has no block before it, every other block has one.
    pub fn free_list_record(&self, cell: usize, index: usize) -> (r: FreeListNode)
        requires
            self.wf(),
            self.is_free(index as nat),
            cell == first_cell(self.levels(), index as nat),
        ensures
            self.free_lists()[level_of(index as nat) as int].contains(index as nat),
            self.is_record(
                r,
                level_of(index as nat) as int,
                self.free_lists()[level_of(index as nat) as int].index_of(index as nat),
            ),
    {
        let ghost level = level_of(index as nat) as int;
        let ghost list = self.free_lists()[level];
        proof {
            lemma_level_in_tree(index as nat, self.levels());
            assert(self.state()[index as int] is Free);
            assert(list.contains(index as nat));
            let at = list.index_of(index as nat);
            assert(self.free_lists@[level][at] == index as nat);
            assert(self.free_lists.uses_cell(cell as nat));
        }
        let r = self.free_lists.record(cell);
        proof {
            let at = list.index_of(index as nat);
            let (l, j) = choose|l: int, j: int|
                0 <= l < self.free_lists.levels() && 0 <= j < self.free_lists@[l].len()
                    && first_cell(self.free_lists.levels(), #[trigger] self.free_lists@[l][j])
                    == cell && self.free_lists.is_record(r, l, j);
            let other = self.free_lists()[l][j];
            assert(level_of(other) == l);
            if other != index as nat {
                lemma_block_in_region(self.levels(), other);
                lemma_block_in_region(self.levels(), index as nat);
                lemma_blocks_disjoint(self.state(), self.levels(), other, index as nat);
            }
            assert(self.free_lists()[l].no_duplicates());
            assert(j == at);
        }
        r
    }

    /// Whether the free-tree bit of block `index` is set.
    pub fn is_marked_free(&self, index: usize) -> (r: bool)
        requires
            self.wf(),
            index < node_count(self.levels()),
        ensures
            r == bit_at(self.free_tree(), index as int),
            r == (self.state()[index as int] is Free || self.state()[index as int] is Inner),
    {
        proof {
            assert(bit_at(self.free_tree(), index as int) == expected_bit(
                self.state(),
                None,
                index as int,
            ));
        }
        get_bit(self.free_tree.as_slice(), index)
    }

    /// Number of cells that the free blocks cover together.
    pub open spec fn free_cells(&self) -> nat {
        cells_in(self.state(), self.levels(), 0, BlockState::Free)
    }

    /// Number of cells that the live blocks cover together.
    pub open spec fn live_cells(&self) -> nat {
        cells_in(self.state(), self.levels(), 0, BlockState::Live)
    }

    /// Conservation: the free and the live blocks together cover every
    /// cell of the region exactly once.
    pub proof fn lemma_conservation(&self)
        requires
            self.wf(),
        ensures
            self.free_cells() + self.live_cells() == cell_count(self.levels()),
    {
        lemma_cells_conserved(self.state(), self.levels());
    }

    /// Non-overlap: two different blocks, each free or live, have no cell
    /// in common.
    pub proof fn lemma_disjoint(&self, a: nat, b: nat)
        requires
            self.wf(),
            a != b,
            self.is_live(a) || self.is_free(a),
            self.is_live(b) || self.is_free(b),
        ensures
            !overlaps(self.levels(), a, b),
    {
        lemma_blocks_disjoint(self.state(), self.levels(), a, b);
    }

    /// Free-tree consistency: a block that is not a half of a live block
    /// is free exactly if its bit is set and the bit of no block above it
    /// is set.
    pub proof fn lemma_free_tree_consistent(&self, i: nat)
        requires
            self.wf(),
            i < node_count(self.levels()),
            i == 0 || !self.is_live(parent(i)),
        ensures
            self.is_free(i) <==> bit_at(self.free_tree(), i as int) && forall|up: nat|
                0 < up <= level_of(i) ==> !bit_at(
                    self.free_tree(),
                    #[trigger] ancestor(i, up) as int,
                ),
    {
        let st = self.state();
        let levels = self.levels();
        assert(bit_at(self.free_tree(), i as int) == expected_bit(st, None, i as int));
        if self.is_free(i) {
            assert forall|up: nat| 0 < up <= level_of(i) implies !bit_at(
                self.free_tree(),
                #[trigger] ancestor(i, up) as int,
            ) by {
                lemma_above_block(st, levels, i, up);
                crate::buddy_tree::index::lemma_ancestor_level(i, up);
                assert(bit_at(self.free_tree(), ancestor(i, up) as int) == expected_bit(
                    st,
                    None,
                    ancestor(i, up) as int,
                ));
            }
        } else if st[i as int] is Inner {
            lemma_parent(i);
            lemma_parent_in_tree(levels, i);
            let p = parent(i);
            assert(crate::buddy_tree::state::node_ok(st, p as int));
            assert(bit_at(self.free_tree(), p as int) == expected_bit(st, None, p as int));
            assert(ancestor(i, 1) == p) by {
                assert(ancestor(p, 0) == p);
            }
        }
    }

    /// Coalescing is complete: a free block never has a free buddy.
    pub proof fn lemma_free_is_maximal(&self, i: nat)
        requires
            self.wf(),
            i > 0,
            self.is_free(i),
        ensures
            !self.is_free(buddy(i)),
    {
        lemma_no_free_buddies(self.state(), self.levels(), i);
    }

    /// Number of cells that a block of `level` covers.
    fn span_of(&self, level: usize) -> (r: usize)
        requires
            1 <= self.levels() < usize::BITS,
            level < self.levels(),
        ensures
            r == level_span(self.levels(), level as nat),
            r >= 1,
    {
        proof {
            vstd::bits::lemma_usize_pow2_no_overflow((self.levels - 1 - level) as nat);
            vstd::bits::lemma_usize_shl_is_mul(1, (self.levels - 1 - level) as usize);
        }
        1usize << (self.levels - 1 - level)
    }

    /// No list names a block that starts inside live block `i`.
    proof fn lemma_cell_unused(&self, pending: Option<nat>, i: nat, cell: nat)
        requires
            self.wf_pending(pending),
            self.is_live(i),
            first_cell(self.levels(), i) <= cell < first_cell(self.levels(), i) + span(
                self.levels(),
                i,
            ),
        ensures
            !self.free_lists.uses_cell(cell),
    {
        let levels = self.levels();
        if self.free_lists.uses_cell(cell) {
            let (l, j) = choose|l: int, j: int|
                0 <= l < self.free_lists.levels() && 0 <= j < self.free_lists@[l].len()
                    && first_cell(self.free_lists.levels(), #[trigger] self.free_lists@[l][j])
                    == cell;
            let e = self.free_lists()[l][j];
            assert(level_of(e) == l);
            lemma_block_in_region(levels, e);
            lemma_blocks_disjoint(self.state(), levels, e, i);
        }
    }

    /// Hands out a block of level `target`. The block is cut from the
    /// head of the free list of the finest level up to `target` that has
    /// a free block: that block is divided until a block of level `target`
    /// is left, always keeping the lower half and putting the upper half
    /// at the head of the free list of its level. Returns the first cell
    /// and the tree index of the block, or `None` if every free list up to
    /// `target` is empty, in which case nothing changes.
    pub fn allocate(&mut self, target: usize) -> (r: Option<(usize, usize)>)
        requires
            old(self).wf(),
            target < old(self).levels(),
        ensures
            final(self).wf(),
            final(self).levels() == old(self).levels(),
            r is None <==> source_level(old(self).free_lists(), target as int) < 0,
            r is None ==> final(self).state() == old(self).state() && final(self).free_lists()
                == old(self).free_lists() && final(self).free_tree() == old(self).free_tree(),
            r is Some ==> ({
                let source = source_level(old(self).free_lists(), target as int);
                let taken = old(self).free_lists()[source][0];
                let down = (target - source) as nat;
                let cell = r.unwrap().0;
                let index = r.unwrap().1;
                &&& 0 <= source <= target
                &&& old(self).is_free(taken)
                &&& level_of(taken) == source
                &&& index == leftmost(taken, down)
                &&& index < node_count(old(self).levels())
                &&& level_of(index as nat) == target
                &&& cell == first_cell(old(self).levels(), index as nat)
                &&& cell == first_cell(old(self).levels(), taken)
                &&& final(self).state() == split_state(old(self).state(), taken, down)
                &&& final(self).free_lists() == split_lists(
                    old(self).free_lists().update(
                        source,
                        old(self).free_lists()[source].drop_first(),
                    ),
                    taken,
                    source,
                    down,
                )
                &&& !old(self).is_live(index as nat)
                &&& forall|i: nat| final(self).is_live(i) <==> old(self).is_live(i) || i == index
            }),
    {
        let ghost levels = self.levels();
        let ghost lists0 = self.free_lists();
        let ghost st0 = self.state();
        let mut level: usize = target;
        while self.free_lists.head(level).is_none() && level != 0
            invariant
                self == old(self),
                self.wf(),
                level <= target < levels,
                levels == self.levels(),
                source_level(lists0, target as int) == source_level(lists0, level as int),
                lists0 == self.free_lists(),
            decreases level,
        {
            level -= 1;
        }
        if self.free_lists.head(level).is_none() {
            return None;
        }
        let ghost source = level as int;
        let ghost bits0 = self.free_tree@;
        let (cell, taken) = self.free_lists.pop_front(level);
        set_bit_false(self.free_tree.as_mut_slice(), taken);
        let ghost lists1 = lists0.update(source, lists0[source].drop_first());
        let ghost st1 = st0.update(taken as int, BlockState::Live);
        proof {
            assert(lists0[source][0] == taken);
            lemma_flip_ok(st0, levels, taken as nat, BlockState::Live);
            self.state@ = st1;
            lemma_links_remove(levels, st0, lists0, st1, taken as nat);
            lemma_bits_step(levels, st0, bits0, None, st1, None, taken as int, false);
        }
        let mut index: usize = taken;
        while level < target
            invariant
                self.wf(),
                levels == self.levels(),
                level <= target < levels,
                source <= level,
                st0.len() == node_count(levels),
                level_of(index as nat) == level,
                index < node_count(levels),
                self.is_live(index as nat),
                cell == first_cell(levels, index as nat),
                cell == first_cell(levels, taken as nat),
                index == leftmost(taken as nat, (level - source) as nat),
                split_state(self.state(), index as nat, (target - level) as nat) == split_state(
                    st1,
                    taken as nat,
                    (target - source) as nat,
                ),
                split_lists(
                    self.free_lists(),
                    index as nat,
                    level as int,
                    (target - level) as nat,
                ) == split_lists(lists1, taken as nat, source, (target - source) as nat),
                !(st0[index as int] is Live),
                forall|i: int|
                    0 <= i < node_count(levels) ==> (#[trigger] self.state()[i] is Live <==> st0[i] is Live
                        || i == index),
            decreases target - level,
        {
            let ghost st = self.state();
            let ghost lists = self.free_lists();
            let ghost bits = self.free_tree@;
            proof {
                lemma_children(index as nat);
                lemma_children_in_tree(index as nat, levels);
                lemma_span_halves(levels, index as nat);
                lemma_block_in_region(levels, index as nat);
                vstd::bits::lemma_usize_pow2_no_overflow((levels - 1) as nat);
                vstd::bits::lemma_usize_pow2_no_overflow(levels);
            }
            level += 1;
            let left: usize = 2 * index + 1;
            let right: usize = left + 1;
            let half: usize = self.span_of(level);
            let right_cell: usize = cell + half;
            proof {
                self.lemma_cell_unused(None, index as nat, right_cell as nat);
                lemma_split_ok(st, levels, index as nat);
                assert(crate::buddy_tree::state::node_ok(st, index as int));
            }
            self.free_lists.push_front(level, right_cell, right);
            set_bit_false(self.free_tree.as_mut_slice(), left);
            proof {
                let st2 = split_once(st, index as nat);
                self.state@ = st2;
                lemma_links_push(levels, st, lists, st2, right as nat);
                lemma_bits_step(levels, st, bits, None, st2, None, left as int, false);
                assert(split_state(st, index as nat, (target - level + 1) as nat) == split_state(
                    st2,
                    left as nat,
                    (target - level) as nat,
                ));
                assert(split_lists(lists, index as nat, level - 1, (target - level + 1) as nat)
                    == split_lists(
                    self.free_lists(),
                    left as nat,
                    level as int,
                    (target - level) as nat,
                ));
            }
            index = left;
        }
        proof {
            assert(self.state().update(index as int, BlockState::Live) =~= self.state());
            if target > source {
                lemma_children_in_tree(taken as nat, levels);
            }
            lemma_split_start(st0, taken as nat, (target - source) as nat);
        }
        Some((cell, index))
    }

    /// Releases live block `index` of `level`, which starts at `cell`. As
    /// long as the buddy of the block is free, the buddy leaves its free
    /// list and the two are joined into their parent; the block that
    /// results goes to the head of the free list of its level.
    pub fn deallocate(&mut self, level: usize, cell: usize, index: usize)
        requires
            old(self).wf(),
            old(self).is_live(index as nat),
            level == level_of(index as nat),
            cell == first_cell(old(self).levels(), index as nat),
        ensures
            final(self).wf(),
            final(self).levels() == old(self).levels(),
            final(self).state() == merge_state(old(self).state(), index as nat),
            final(self).free_lists() == merge_lists(
                old(self).free_lists(),
                old(self).state(),
                index as nat,
            ),
            final(self).is_free(merged_block(old(self).state(), index as nat)),
            forall|i: nat| final(self).is_live(i) <==> old(self).is_live(i) && i != index,
    {
        let ghost levels = self.levels();
        let ghost st0 = self.state();
        let ghost lists0 = self.free_lists();
        let ghost index0 = index;
        let ghost bits0 = self.free_tree@;
        let mut level: usize = level;
        let mut cell: usize = cell;
        let mut index: usize = index;
        set_bit_true(self.free_tree.as_mut_slice(), index);
        proof {
            lemma_bits_step(levels, st0, bits0, None, st0, Some(index as nat), index as int, true);
        }
        while level != 0
            invariant
                self.wf_pending(Some(index as nat)),
                levels == self.levels(),
                st0.len() == node_count(levels),
                self.is_live(index as nat),
                level == level_of(index as nat),
                cell == first_cell(levels, index as nat),
                merge_state(self.state(), index as nat) == merge_state(st0, index0 as nat),
                merge_lists(self.free_lists(), self.state(), index as nat) == merge_lists(
                    lists0,
                    st0,
                    index0 as nat,
                ),
                merged_block(self.state(), index as nat) == merged_block(st0, index0 as nat),
                index == index0 || !(st0[index as int] is Live),
                index <= index0,
                forall|i: int|
                    0 <= i < node_count(levels) ==> (#[trigger] self.state()[i] is Live <==> (
                    st0[i] is Live && i != index0) || i == index),
            ensures
                level == 0 || !(self.state()[buddy(index as nat) as int] is Free),
            decreases level,
        {
            let ghost st = self.state();
            let ghost lists = self.free_lists();
            let ghost bits = self.free_tree@;
            proof {
                lemma_level_in_tree(index as nat, levels);
                lemma_parent(index as nat);
                lemma_parent_in_tree(levels, index as nat);
                lemma_parent_split(st, levels, index as nat);
                lemma_span_halves(levels, parent(index as nat));
                lemma_block_in_region(levels, parent(index as nat));
                vstd::bits::lemma_usize_pow2_no_overflow(levels);
                vstd::bits::lemma_usize_pow2_no_overflow((levels - 1) as nat);
            }
            let lower: bool = index % 2 == 1;
            let other: usize = if lower {
                index + 1
            } else {
                index - 1
            };
            proof {
                assert(bit_at(bits, other as int) == expected_bit(
                    st,
                    Some(index as nat),
                    other as int,
                ));
            }
            if !get_bit(self.free_tree.as_slice(), other) {
                break ;
            }
            let half: usize = self.span_of(level);
            let other_cell: usize = if lower {
                cell + half
            } else {
                cell - half
            };
            let parent_cell: usize = if lower {
                cell
            } else {
                cell - half
            };
            let up: usize = (index - 1) / 2;
            let ghost st2 = merge_once(st, index as nat);
            proof {
                assert(st[other as int] is Free);
                lemma_merge_ok(st, levels, index as nat);
                lemma_links_remove(levels, st, lists, st2, other as nat);
            }
            self.free_lists.unlink(level, other_cell, other);
            set_bit_true(self.free_tree.as_mut_slice(), up);
            proof {
                self.state@ = st2;
                lemma_bits_step(
                    levels,
                    st,
                    bits,
                    Some(index as nat),
                    st2,
                    Some(up as nat),
                    up as int,
                    true,
                );
            }
            index = up;
            cell = parent_cell;
            level -= 1;
        }
        let ghost st = self.state();
        let ghost lists = self.free_lists();
        let ghost bits = self.free_tree@;
        let ghost st2 = st.update(index as int, BlockState::Free);
        proof {
            lemma_level_in_tree(index as nat, levels);
            lemma_block_in_region(levels, index as nat);
            self.lemma_cell_unused(Some(index as nat), index as nat, cell as nat);
            if index > 0 {
                lemma_parent(index as nat);
            }
            lemma_flip_ok(st, levels, index as nat, BlockState::Free);
            lemma_links_push(levels, st, lists, st2, index as nat);
            lemma_bits_same(levels, st, bits, Some(index as nat), st2, None);
        }
        self.free_lists.push_front(level, cell, index);
        proof {
            self.state@ = st2;
        }
    }
}

/// Dividing a block gives the same tree whatever the block was before.
pub proof fn lemma_split_start(st: Seq<BlockState>, i: nat, down: nat)
    requires
        0 <= i < st.len(),
        down > 0 ==> right_child(i) < st.len(),
    ensures
        split_state(st.update(i as int, BlockState::Live), i, down) == split_state(st, i, down),
{
    if down == 0 {
        assert(st.update(i as int, BlockState::Live).update(i as int, BlockState::Live)
            =~= st.update(i as int, BlockState::Live));
    } else {
        assert(split_once(st.update(i as int, BlockState::Live), i) =~= split_once(st, i));
    }
}

} // verus!
