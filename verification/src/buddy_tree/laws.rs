use crate::buddy_tree::index::{
    ancestor, first_cell, left_child, leftmost, lemma_ancestor_step, lemma_children,
    lemma_children_in_tree, lemma_inside_parent, lemma_parent, level_of, node_count, parent,
    right_child,
    span,
};
use crate::buddy_tree::links::links_ok;
use crate::buddy_tree::state::{
    lemma_no_free_buddies, merge_once, node_ok, split_once, tree_ok, BlockState,
};
use crate::buddy_tree::{
    merge_lists, merge_state, merged_block, merges, source_level, split_lists, split_state,
    BuddyTree,
};
use vstd::prelude::*;

verus! {

/// The lower-half descendant `down` levels below a block is the one
/// `down - 1` levels below its lower half.
pub proof fn lemma_leftmost_from_top(i: nat, down: nat)
    requires
        down > 0,
    ensures
        leftmost(i, down) == leftmost(left_child(i), (down - 1) as nat),
    decreases down,
{
    if down > 1 {
        lemma_leftmost_from_top(i, (down - 1) as nat);
        assert(leftmost(left_child(i), (down - 1) as nat) == left_child(
            leftmost(left_child(i), (down - 2) as nat),
        ));
    } else {
        assert(leftmost(i, 0) == i);
        assert(leftmost(left_child(i), 0) == left_child(i));
    }
}

/// Whether the blocks that dividing block `i` `down` times touches, the
/// lower halves on the way down and their buddies, are inner blocks in
/// the tree and on no free list.
pub open spec fn path_clear(st: Seq<BlockState>, lists: Seq<Seq<nat>>, i: nat, down: nat) -> bool
    decreases down,
{
    if down == 0 {
        true
    } else {
        &&& right_child(i) < st.len()
        &&& level_of(i) + 1 < lists.len()
        &&& st[left_child(i) as int] is Inner
        &&& st[right_child(i) as int] is Inner
        &&& !lists[level_of(i) as int + 1].contains(right_child(i))
        &&& path_clear(st, lists, left_child(i), (down - 1) as nat)
    }
}

/// Below a block that is free or live the path of a division is clear.
pub proof fn lemma_path_clear(
    st: Seq<BlockState>,
    lists: Seq<Seq<nat>>,
    levels: nat,
    i: nat,
    down: nat,
)
    requires
        tree_ok(st, levels),
        links_ok(levels, st, lists),
        i < node_count(levels),
        level_of(i) + down < levels,
        !(st[i as int] is Split),
    ensures
        path_clear(st, lists, i, down),
    decreases down,
{
    if down > 0 {
        lemma_children(i);
        lemma_children_in_tree(i, levels);
        assert(node_ok(st, i as int));
        let list = lists[level_of(i) as int + 1];
        if list.contains(right_child(i)) {
            let j = choose|j: int| 0 <= j < list.len() && list[j] == right_child(i);
            assert(st[lists[level_of(i) as int + 1][j] as int] is Free);
        }
        lemma_path_clear(st, lists, levels, left_child(i), (down - 1) as nat);
    }
}

/// A clear path stays clear when the tree changes at the block, its two
/// halves and its ancestors only, and the lists change at the levels down
/// to that of the halves only.
pub proof fn lemma_path_clear_frame(
    st: Seq<BlockState>,
    lists: Seq<Seq<nat>>,
    st2: Seq<BlockState>,
    lists2: Seq<Seq<nat>>,
    i: nat,
    down: nat,
    floor: nat,
)
    requires
        path_clear(st, lists, i, down),
        st2.len() == st.len(),
        lists2.len() == lists.len(),
        floor < left_child(i),
        forall|j: int| floor < j < st.len() ==> st2[j] == st[j],
        forall|l: int| level_of(i) < l < lists.len() ==> lists2[l] == lists[l],
    ensures
        path_clear(st2, lists2, i, down),
    decreases down,
{
    if down > 0 {
        lemma_children(i);
        lemma_path_clear_frame(st, lists, st2, lists2, left_child(i), (down - 1) as nat, floor);
    }
}

/// Dividing a block and then releasing the lower-half descendant that was
/// handed out undoes the division: the tree and the free lists are as if
/// the block itself were released.
pub proof fn lemma_split_then_merge(st: Seq<BlockState>, lists: Seq<Seq<nat>>, i: nat, down: nat)
    requires
        path_clear(st, lists, i, down),
        i < st.len(),
    ensures
        merge_state(split_state(st, i, down), leftmost(i, down)) == merge_state(
            st.update(i as int, BlockState::Live),
            i,
        ),
        merge_lists(
            split_lists(lists, i, level_of(i) as int, down),
            split_state(st, i, down),
            leftmost(i, down),
        ) == merge_lists(lists, st.update(i as int, BlockState::Live), i),
    decreases down,
{
    let live = st.update(i as int, BlockState::Live);
    if down == 0 {
        assert(split_state(st, i, 0) == live);
    } else {
        lemma_children(i);
        let left = left_child(i);
        let right = right_child(i);
        let level = level_of(i) as int;
        let s1 = split_once(st, i);
        let pushed = seq![right] + lists[level + 1];
        let l1 = lists.update(level + 1, pushed);
        lemma_leftmost_from_top(i, down);
        lemma_path_clear_frame(st, lists, s1, l1, left, (down - 1) as nat, right);
        lemma_split_then_merge(s1, l1, left, (down - 1) as nat);
        assert(s1.update(left as int, BlockState::Live) =~= s1);
        // releasing the lower half joins it with the upper half again
        assert(merges(s1, left));
        assert(merge_once(s1, left) =~= live);
        assert(pushed[0] == right);
        assert(pushed.index_of(right) == 0) by {
            let at = pushed.index_of(right);
            assert(0 <= at < pushed.len() && pushed[at] == right);
            if at > 0 {
                assert(lists[level + 1][at - 1] == right);
            }
        }
        assert(pushed.remove(0) =~= lists[level + 1]);
        assert(l1.update(level + 1, pushed.remove(0)) =~= lists);
    }
}

impl BuddyTree {
    /// Allocating a block and releasing it at once leaves the tree and the
    /// free lists, with the order of their entries, as they were.
    pub proof fn lemma_allocate_then_release(&self, target: nat)
        requires
            self.wf(),
            target < self.levels(),
            source_level(self.free_lists(), target as int) >= 0,
        ensures
            ({
                let source = source_level(self.free_lists(), target as int);
                let taken = self.free_lists()[source][0];
                let down = (target - source) as nat;
                let index = leftmost(taken, down);
                let state = split_state(self.state(), taken, down);
                let lists = split_lists(
                    self.free_lists().update(source, self.free_lists()[source].drop_first()),
                    taken,
                    source,
                    down,
                );
                &&& merge_state(state, index) == self.state()
                &&& merge_lists(lists, state, index) == self.free_lists()
            }),
    {
        let st = self.state();
        let lists = self.free_lists();
        let levels = self.levels();
        lemma_source_level(lists, target as int);
        let source = source_level(lists, target as int);
        let taken = lists[source][0];
        let down = (target - source) as nat;
        let popped = lists.update(source, lists[source].drop_first());
        assert(level_of(taken) == source);
        assert(st[taken as int] is Free);
        lemma_path_clear(st, lists, levels, taken, down);
        lemma_path_clear_frame(st, lists, st, popped, taken, down, taken);
        lemma_split_then_merge(st, popped, taken, down);
        if taken > 0 {
            lemma_no_free_buddies(st, levels, taken);
            crate::buddy_tree::state::lemma_parent_in_tree(levels, taken);
            crate::buddy_tree::index::lemma_parent(taken);
        }
        let live = st.update(taken as int, BlockState::Live);
        assert(!merges(live, taken));
        assert(live.update(taken as int, BlockState::Free) =~= st);
        assert(seq![taken] + lists[source].drop_first() =~= lists[source]);
        assert(popped.update(source, seq![taken] + popped[source]) =~= lists);
    }
}

/// The block that a release leaves on a free list is the released block
/// or a block above it, and so contains every cell of the released block.
pub proof fn lemma_merged_block_contains(st: Seq<BlockState>, levels: nat, i: nat)
    requires
        level_of(i) < levels,
    ensures
        level_of(merged_block(st, i)) <= level_of(i),
        merged_block(st, i) == ancestor(
            i,
            (level_of(i) - level_of(merged_block(st, i))) as nat,
        ),
        first_cell(levels, merged_block(st, i)) <= first_cell(levels, i),
        first_cell(levels, i) + span(levels, i) <= first_cell(levels, merged_block(st, i)) + span(
            levels,
            merged_block(st, i),
        ),
    decreases i,
{
    if merges(st, i) {
        lemma_parent(i);
        lemma_inside_parent(levels, i);
        lemma_merged_block_contains(merge_once(st, i), levels, parent(i));
        let up = (level_of(i) - level_of(merged_block(st, i))) as nat;
        lemma_ancestor_step(i, up);
    }
}

/// The level that serves a request is one of the levels up to the target
/// and has a free block, or there is none and every list up to the target
/// is empty.
pub proof fn lemma_source_level(lists: Seq<Seq<nat>>, target: int)
    requires
        0 <= target < lists.len(),
    ensures
        -1 <= source_level(lists, target) <= target,
        source_level(lists, target) >= 0 ==> lists[source_level(lists, target)].len() > 0,
        forall|l: int| source_level(lists, target) < l <= target ==> lists[l].len() == 0,
    decreases target,
{
    if lists[target].len() == 0 && target > 0 {
        lemma_source_level(lists, target - 1);
    }
}

} // verus!
