use crate::allocator::node_bytes;
use crate::buddy_tree::index::{
    cell_count, first_cell, lemma_block_in_region, lemma_level_bounds, lemma_level_in_tree,
    level_of, node_count,
};
use crate::buddy_tree::region::{
    address_of, best_level, block_bytes, cell_bytes, lemma_address, lemma_addresses_disjoint,
    lemma_best_level, lemma_block_bytes, region_ok,
};
use crate::buddy_tree::state::initial_state;
use crate::buddy_tree::{
    merge_lists, merge_state, merged_block, source_level, split_lists, split_state, BuddyTree,
};
use crate::memory::Allocator;
use vstd::arithmetic::power2::pow2;
use vstd::prelude::*;

verus! {

/// A buddy allocator over the heap `[heap_start, heap_start + heap_size)`
/// that finds the block of an allocation again from its address alone: a
/// table with one entry per smallest block holds the tree index of the
/// live allocation that starts there.
pub struct BuddyAllocator {
    /// Address of the first byte of the heap.
    pub heap_start: usize,
    /// Number of bytes of the heap, a power of two.
    pub heap_size: usize,
    /// Size of a smallest block, in bytes.
    pub block_size: usize,
    /// Which blocks are free and which are live.
    pub tree: BuddyTree,
    /// For each smallest block the tree index of the live allocation that
    /// starts with it, if there is one.
    pub block_to_free_tree: Vec<Option<usize>>,
}

impl BuddyAllocator {
    /// Number of levels.
    pub open spec fn levels(&self) -> nat {
        self.tree.levels()
    }

    /// Address of block `i`.
    pub open spec fn address(&self, i: nat) -> int {
        address_of(self.heap_start as int, self.heap_size as int, self.levels(), i)
    }

    /// Size in bytes of the blocks of `level`.
    pub open spec fn level_bytes(&self, level: nat) -> int {
        block_bytes(self.heap_size as int, level)
    }

    /// Whether block `i` is a live allocation.
    pub open spec fn is_live(&self, i: nat) -> bool {
        self.tree.is_live(i)
    }

    /// Whether block `i` is free as a whole, and so on a free list.
    pub open spec fn is_free(&self, i: nat) -> bool {
        self.tree.is_free(i)
    }

    /// The block that serves a request for `size` bytes, if one does: the
    /// lower-half descendant, at the best level for the request, of the
    /// head of the free list of the finest level up to that level that has
    /// a free block.
    pub open spec fn served_block(&self, size: usize) -> nat {
        let best = best_level(self.heap_size as int, self.levels(), size as int);
        let source = source_level(self.tree.free_lists(), best as int);
        crate::buddy_tree::index::leftmost(
            self.tree.free_lists()[source][0],
            (best - source) as nat,
        )
    }

    /// The entry of the table that belongs to the address `ptr`.
    pub open spec fn cell_of(&self, ptr: usize) -> int {
        (ptr - self.heap_start) / self.block_size as int
    }

    /// Total size of the free blocks.
    pub open spec fn free_bytes(&self) -> int {
        self.tree.free_cells() * cell_bytes(self.heap_size as int, self.levels())
    }

    /// Total size of the blocks of the live allocations.
    pub open spec fn live_bytes(&self) -> int {
        self.tree.live_cells() * cell_bytes(self.heap_size as int, self.levels())
    }

    /// The table names exactly the live allocations, each at the entry of
    /// its first smallest block.
    pub open spec fn table_ok(&self) -> bool {
        &&& self.block_to_free_tree@.len() == cell_count(self.levels())
        &&& forall|c: int|
            0 <= c < self.block_to_free_tree@.len() && (
            #[trigger] self.block_to_free_tree@[c]) is Some ==> {
                let i = self.block_to_free_tree@[c]->0 as nat;
                self.is_live(i) && first_cell(self.levels(), i) == c
            }
        &&& forall|i: nat|
            #![trigger self.is_live(i)]
            self.is_live(i) ==> self.block_to_free_tree@[first_cell(self.levels(), i) as int]
                == Some(i as usize)
    }

    /// The tree is sound, the heap is a region that the tree can manage, a
    /// smallest block holds the record of a free block, and the table
    /// agrees with the tree.
    pub open spec fn inv(&self) -> bool {
        &&& self.tree.wf()
        &&& region_ok(self.heap_start as int, self.heap_size as int, self.levels())
        &&& self.block_size == cell_bytes(self.heap_size as int, self.levels())
        &&& node_bytes() <= self.block_size
        &&& self.table_ok()
    }

    /// An allocator over the heap at `heap_start` in which the whole heap
    /// is one free block of level 0.
    pub fn new(heap_start: usize, heap_size: usize, block_levels: usize) -> (r: Self)
        requires
            region_ok(heap_start as int, heap_size as int, block_levels as nat),
            node_bytes() <= cell_bytes(heap_size as int, block_levels as nat),
        ensures
            r.inv(),
            r.heap_start == heap_start,
            r.heap_size == heap_size,
            r.block_size == cell_bytes(heap_size as int, block_levels as nat),
            r.levels() == block_levels,
            r.tree.state() == initial_state(block_levels as nat),
            r.tree.free_lists() == Seq::new(block_levels as nat, |l: int| Seq::<nat>::empty()).update(
                0,
                seq![0nat],
            ),
            r.is_free(0),
            forall|i: nat| !r.is_live(i),
    {
        proof {
            vstd::bits::lemma_usize_pow2_no_overflow((block_levels - 1) as nat);
            vstd::bits::lemma_usize_shl_is_mul(1, (block_levels - 1) as usize);
            vstd::bits::lemma_usize_shr_is_div(heap_size, (block_levels - 1) as usize);
            vstd::arithmetic::power2::lemma_pow2_pos(block_levels as nat);
            vstd::arithmetic::power2::lemma_pow2_strictly_increases(0, block_levels as nat);
            vstd::arithmetic::power2::lemma2_to64();
        }
        let block_count: usize = 1usize << (block_levels - 1);
        let block_size: usize = heap_size >> (block_levels - 1);
        let mut table: Vec<Option<usize>> = Vec::new();
        let mut c: usize = 0;
        while c < block_count
            invariant
                c <= block_count,
                table@.len() == c,
                forall|k: int| 0 <= k < c ==> table@[k] is None,
            decreases block_count - c,
        {
            table.push(None);
            c += 1;
        }
        BuddyAllocator {
            heap_start,
            heap_size,
            block_size,
            tree: BuddyTree::new(block_levels),
            block_to_free_tree: table,
        }
    }

    /// Number of smallest blocks.
    pub fn get_block_count(&self) -> (r: usize)
        requires
            self.inv(),
        ensures
            r == cell_count(self.levels()),
    {
        self.block_to_free_tree.len()
    }

    /// Number of levels.
    pub fn get_block_levels(&self) -> (r: usize)
        ensures
            r == self.levels(),
    {
        self.tree.level_count()
    }

    /// The entry of a cell inside a free block is empty.
    proof fn lemma_entry_empty(&self, taken: nat, c: int)
        requires
            self.inv(),
            self.is_free(taken),
            first_cell(self.levels(), taken) == c,
        ensures
            0 <= c < self.block_to_free_tree@.len(),
            self.block_to_free_tree@[c] is None,
    {
        lemma_level_in_tree(taken, self.levels());
        lemma_block_in_region(self.levels(), taken);
        if self.block_to_free_tree@[c] is Some {
            let i = self.block_to_free_tree@[c]->0 as nat;
            lemma_level_in_tree(i, self.levels());
            lemma_block_in_region(self.levels(), i);
            self.tree.lemma_disjoint(taken, i);
        }
    }

    /// Two live allocations do not start at the same cell.
    proof fn lemma_one_per_cell(&self, a: nat, b: nat)
        requires
            self.tree.wf(),
            self.is_live(a),
            self.is_live(b),
            first_cell(self.levels(), a) == first_cell(self.levels(), b),
        ensures
            a == b,
    {
        if a != b {
            lemma_level_in_tree(a, self.levels());
            lemma_level_in_tree(b, self.levels());
            lemma_block_in_region(self.levels(), a);
            lemma_block_in_region(self.levels(), b);
            self.tree.lemma_disjoint(a, b);
        }
    }

    /// Conservation: the sizes of the free blocks and of the live
    /// allocations add up to the size of the heap.
    pub proof fn lemma_conservation(&self)
        requires
            self.inv(),
        ensures
            self.free_bytes() + self.live_bytes() == self.heap_size,
    {
        self.tree.lemma_conservation();
        lemma_block_bytes(self.heap_size as int, self.levels(), 0);
        let cb = cell_bytes(self.heap_size as int, self.levels());
        assert(self.tree.free_cells() * cb + self.tree.live_cells() * cb == cb * cell_count(
            self.levels(),
        )) by (nonlinear_arith)
            requires
                self.tree.free_cells() + self.tree.live_cells() == cell_count(self.levels()),
        ;
    }

    /// Alignment: a block starts at a multiple of its size, inside the
    /// heap.
    pub proof fn lemma_aligned(&self, i: nat)
        requires
            self.inv(),
            i < node_count(self.levels()),
        ensures
            self.address(i) % self.level_bytes(level_of(i)) == 0,
            self.heap_start <= self.address(i),
            self.address(i) + self.level_bytes(level_of(i)) <= self.heap_start + self.heap_size,
    {
        lemma_level_in_tree(i, self.levels());
        lemma_address(self.heap_start as int, self.heap_size as int, self.levels(), i);
    }

    /// Non-overlap: two different blocks, each a live allocation or a free
    /// block, have no byte in common.
    pub proof fn lemma_no_overlap(&self, a: nat, b: nat)
        requires
            self.inv(),
            a != b,
            self.is_live(a) || self.is_free(a),
            self.is_live(b) || self.is_free(b),
        ensures
            self.address(a) + self.level_bytes(level_of(a)) <= self.address(b) || self.address(b)
                + self.level_bytes(level_of(b)) <= self.address(a),
    {
        self.tree.lemma_disjoint(a, b);
        lemma_level_in_tree(a, self.levels());
        lemma_level_in_tree(b, self.levels());
        lemma_addresses_disjoint(
            self.heap_start as int,
            self.heap_size as int,
            self.levels(),
            a,
            b,
        );
    }
}

impl Allocator for BuddyAllocator {
    open spec fn wf(&self) -> bool {
        self.inv()
    }

    /// A request is served if it is no larger than the heap and a free
    /// block exists at the best level for it or above.
    open spec fn can_allocate(&self, size: usize, align: usize) -> bool {
        size <= self.heap_size && source_level(
            self.tree.free_lists(),
            best_level(self.heap_size as int, self.levels(), size as int) as int,
        ) >= 0
    }

    /// `dealloc` takes the address of every live allocation.
    open spec fn is_allocated(&self, ptr: usize) -> bool {
        exists|i: nat| #[trigger] self.is_live(i) && self.address(i) == ptr
    }

    /// The address of the block that serves the request, and the size of
    /// the blocks of its level.
    open spec fn allocated(&self, size: usize, align: usize) -> (usize, usize) {
        if self.can_allocate(size, align) {
            (
                self.address(self.served_block(size)) as usize,
                self.level_bytes(
                    best_level(self.heap_size as int, self.levels(), size as int),
                ) as usize,
            )
        } else {
            (0, 0)
        }
    }

    /// A request that is served divides the block it is cut from and notes
    /// the block handed out in the table; one that is not leaves the tree,
    /// the free lists and the table as they are.
    open spec fn after_allocate(&self, size: usize, align: usize, after: &Self) -> bool {
        let best = best_level(self.heap_size as int, self.levels(), size as int);
        let source = source_level(self.tree.free_lists(), best as int);
        let taken = self.tree.free_lists()[source][0];
        let down = (best - source) as nat;
        let index = self.served_block(size);
        &&& after.heap_start == self.heap_start
        &&& after.heap_size == self.heap_size
        &&& after.block_size == self.block_size
        &&& after.levels() == self.levels()
        &&& if self.can_allocate(size, align) {
            &&& after.tree.state() == split_state(self.tree.state(), taken, down)
            &&& after.tree.free_lists() == split_lists(
                self.tree.free_lists().update(source, self.tree.free_lists()[source].drop_first()),
                taken,
                source,
                down,
            )
            &&& after.block_to_free_tree@ == self.block_to_free_tree@.update(
                first_cell(self.levels(), index) as int,
                Some(index as usize),
            )
        } else {
            &&& after.tree.state() == self.tree.state()
            &&& after.tree.free_lists() == self.tree.free_lists()
            &&& after.block_to_free_tree@ == self.block_to_free_tree@
        }
    }

    /// The block noted in the table for `ptr` is released: joined with its
    /// buddy as long as that is free, and put on a free list; its entry of
    /// the table is empty.
    open spec fn after_dealloc(&self, ptr: usize, after: &Self) -> bool {
        let index = self.block_to_free_tree@[self.cell_of(ptr)]->0 as nat;
        &&& after.heap_start == self.heap_start
        &&& after.heap_size == self.heap_size
        &&& after.block_size == self.block_size
        &&& after.levels() == self.levels()
        &&& after.tree.state() == merge_state(self.tree.state(), index)
        &&& after.tree.free_lists() == merge_lists(
            self.tree.free_lists(),
            self.tree.state(),
            index,
        )
        &&& after.block_to_free_tree@ == self.block_to_free_tree@.update(self.cell_of(ptr), None)
    }

    /// Allocates `requested_size` bytes. The block is of the finest level
    /// whose blocks hold that many bytes, cut from the smallest free block
    /// that is large enough. The alignment asked for plays no part in the
    /// choice: a block is aligned to its own size, and so to every
    /// alignment up to that size. Returns the address of the block and its
    /// size.
    fn allocate(&mut self, requested_size: usize, requested_align: usize) -> (r: (usize, usize))
        ensures
            final(self).heap_start == old(self).heap_start,
            final(self).heap_size == old(self).heap_size,
            final(self).block_size == old(self).block_size,
            final(self).levels() == old(self).levels(),
            ({
                let best = best_level(
                    old(self).heap_size as int,
                    old(self).levels(),
                    requested_size as int,
                );
                let source = source_level(old(self).tree.free_lists(), best as int);
                let taken = old(self).tree.free_lists()[source][0];
                let down = (best - source) as nat;
                let index = crate::buddy_tree::index::leftmost(taken, down);
                if r.0 == 0 {
                    &&& final(self).tree.state() == old(self).tree.state()
                    &&& final(self).tree.free_lists() == old(self).tree.free_lists()
                    &&& final(self).block_to_free_tree@ == old(self).block_to_free_tree@
                } else {
                    &&& r.1 == old(self).level_bytes(best)
                    &&& old(self).is_free(taken)
                    &&& level_of(index) == best
                    &&& r.0 == old(self).address(index)
                    &&& r.0 % r.1 == 0
                    &&& requested_align <= r.1 ==> r.0 % requested_align == 0
                    &&& best + 1 < old(self).levels() ==> old(self).level_bytes(best + 1)
                        < requested_size
                    &&& old(self).heap_start <= r.0
                    &&& r.0 + r.1 <= old(self).heap_start + old(self).heap_size
                    &&& final(self).tree.state() == split_state(old(self).tree.state(), taken, down)
                    &&& final(self).tree.free_lists() == split_lists(
                        old(self).tree.free_lists().update(
                            source,
                            old(self).tree.free_lists()[source].drop_first(),
                        ),
                        taken,
                        source,
                        down,
                    )
                    &&& !old(self).is_live(index)
                    &&& forall|i: nat| final(self).is_live(i) <==> old(self).is_live(i) || i == index
                }
            }),
    {
        let ghost levels = self.levels();
        if requested_size > self.heap_size {
            return (0, 0);
        }
        let block_levels: usize = self.tree.level_count();
        let mut level: usize = 0;
        proof {
            lemma_block_bytes(self.heap_size as int, levels, 0);
        }
        while level + 1 < block_levels
            invariant
                self == old(self),
                self.inv(),
                levels == self.levels(),
                block_levels == levels,
                level < block_levels,
                block_bytes(self.heap_size as int, level as nat) >= requested_size,
            ensures
                level + 1 == block_levels || block_bytes(self.heap_size as int, (level + 1) as nat)
                    < requested_size,
            decreases block_levels - level,
        {
            proof {
                vstd::bits::lemma_usize_shr_is_div(self.heap_size, (level + 1) as usize);
            }
            if (self.heap_size >> (level + 1)) < requested_size {
                break ;
            }
            level += 1;
        }
        proof {
            lemma_best_level(self.heap_size as int, levels, requested_size as int, level as nat);
        }
        let ghost source = source_level(self.tree.free_lists(), level as int);
        let ghost taken = self.tree.free_lists()[source][0];
        match self.tree.allocate(level) {
            None => {
                proof {
                    assert forall|i: nat| self.is_live(i) == old(self).is_live(i) by {}
                    assert forall|i: nat| #![trigger self.is_live(i)] self.is_live(i) implies self.block_to_free_tree@[first_cell(
                        self.levels(),
                        i,
                    ) as int] == Some(i as usize) by {
                        assert(old(self).is_live(i));
                    }
                    assert forall|c: int|
                        0 <= c < self.block_to_free_tree@.len() && (
                        #[trigger] self.block_to_free_tree@[c]) is Some implies {
                        let i = self.block_to_free_tree@[c]->0 as nat;
                        self.is_live(i) && first_cell(self.levels(), i) == c
                    } by {
                        let i = old(self).block_to_free_tree@[c]->0 as nat;
                        assert(old(self).is_live(i));
                    }
                    assert forall|p: usize| old(self).is_allocated(p) implies self.is_allocated(
                        p,
                    ) by {
                        let i = choose|i: nat| #[trigger] old(self).is_live(i) && old(self).address(i) == p;
                        assert(self.is_live(i));
                    }
                }
                (0, 0)
            },
            Some((cell, index)) => {
                proof {
                    vstd::bits::lemma_usize_shr_is_div(self.heap_size, level);
                    lemma_address(
                        self.heap_start as int,
                        self.heap_size as int,
                        levels,
                        index as nat,
                    );
                    lemma_block_bytes(self.heap_size as int, levels, level as nat);
                    old(self).lemma_entry_empty(taken, cell as int);
                    if requested_align <= block_bytes(self.heap_size as int, level as nat) {
                        crate::buddy_tree::region::lemma_aligned_to_smaller(
                            address_of(
                                self.heap_start as int,
                                self.heap_size as int,
                                levels,
                                index as nat,
                            ),
                            block_bytes(self.heap_size as int, level as nat),
                            requested_align as int,
                        );
                    }
                }
                assert(cell * self.block_size >= 0 && cell * self.block_size <= self.heap_size)
                    by (nonlinear_arith)
                    requires
                        cell * self.block_size + self.heap_start + block_bytes(
                            self.heap_size as int,
                            level as nat,
                        ) <= self.heap_start + self.heap_size,
                        block_bytes(self.heap_size as int, level as nat) >= 0,
                        cell >= 0,
                        self.block_size >= 0,
                ;
                self.block_to_free_tree[cell] = Some(index);
                proof {
                    assert forall|i: nat| #![trigger self.is_live(i)] self.is_live(i) implies self.block_to_free_tree@[first_cell(
                        self.levels(),
                        i,
                    ) as int] == Some(i as usize) by {
                        lemma_level_in_tree(i, levels);
                        lemma_block_in_region(levels, i);
                        vstd::bits::lemma_usize_pow2_no_overflow(levels);
                        if i != index {
                            assert(old(self).is_live(i));
                            if first_cell(levels, i) == cell {
                                self.lemma_one_per_cell(i, index as nat);
                            }
                        }
                    }
                    assert forall|c: int|
                        0 <= c < self.block_to_free_tree@.len() && (
                        #[trigger] self.block_to_free_tree@[c]) is Some implies {
                        let i = self.block_to_free_tree@[c]->0 as nat;
                        self.is_live(i) && first_cell(self.levels(), i) == c
                    } by {
                        if c != cell {
                            assert(old(self).block_to_free_tree@[c] is Some);
                            let i = old(self).block_to_free_tree@[c]->0 as nat;
                            assert(old(self).is_live(i));
                        }
                    }
                    assert(self.table_ok());
                    assert forall|p: usize| old(self).is_allocated(p) implies self.is_allocated(
                        p,
                    ) by {
                        let i = choose|i: nat| #[trigger] old(self).is_live(i) && old(self).address(i) == p;
                        assert(self.is_live(i));
                    }
                    assert(self.is_live(index as nat));
                }
                (self.heap_start + cell * self.block_size, self.heap_size >> level)
            },
        }
    }

    /// Releases the allocation at `allocated_ptr`. The block is joined with
    /// its buddy as long as the buddy is free, and what results is put at
    /// the head of the free list of its level.
    fn dealloc(&mut self, allocated_ptr: usize)
        ensures
            final(self).heap_start == old(self).heap_start,
            final(self).heap_size == old(self).heap_size,
            final(self).block_size == old(self).block_size,
            final(self).levels() == old(self).levels(),
            ({
                let index = old(self).block_to_free_tree@[(allocated_ptr - old(self).heap_start)
                    / old(self).block_size as int]->0 as nat;
                &&& old(self).is_live(index)
                &&& old(self).address(index) == allocated_ptr
                &&& final(self).tree.state() == merge_state(old(self).tree.state(), index)
                &&& final(self).tree.free_lists() == merge_lists(
                    old(self).tree.free_lists(),
                    old(self).tree.state(),
                    index,
                )
                &&& final(self).is_free(merged_block(old(self).tree.state(), index))
                &&& forall|i: nat| final(self).is_live(i) <==> old(self).is_live(i) && i != index
            }),
    {
        let ghost levels = self.levels();
        let ghost live = choose|i: nat| #[trigger] self.is_live(i) && self.address(i) == allocated_ptr;
        proof {
            lemma_level_in_tree(live, levels);
            lemma_address(self.heap_start as int, self.heap_size as int, levels, live);
            lemma_block_in_region(levels, live);
            vstd::bits::lemma_usize_pow2_no_overflow(levels);
        }
        let block_index: usize = (allocated_ptr - self.heap_start) / self.block_size;
        let free_tree_index: usize = self.block_to_free_tree[block_index].unwrap();
        self.block_to_free_tree[block_index] = None;
        let level: usize = get_block_level(free_tree_index);
        self.tree.deallocate(level, block_index, free_tree_index);
        proof {
            assert forall|i: nat| #![trigger self.is_live(i)] self.is_live(i) implies self.block_to_free_tree@[first_cell(
                self.levels(),
                i,
            ) as int] == Some(i as usize) by {
                assert(old(self).is_live(i));
                lemma_level_in_tree(i, levels);
                lemma_block_in_region(levels, i);
                if first_cell(levels, i) == block_index {
                    old(self).lemma_one_per_cell(i, live);
                }
            }
            assert forall|c: int|
                0 <= c < self.block_to_free_tree@.len() && (
                #[trigger] self.block_to_free_tree@[c]) is Some implies {
                let i = self.block_to_free_tree@[c]->0 as nat;
                self.is_live(i) && first_cell(self.levels(), i) == c
            } by {
                assert(old(self).block_to_free_tree@[c] is Some);
                let i = old(self).block_to_free_tree@[c]->0 as nat;
                assert(old(self).is_live(i));
            }
            assert(self.table_ok());
            assert forall|p: usize|
                p != allocated_ptr && old(self).is_allocated(p) implies self.is_allocated(p) by {
                let i = choose|i: nat| #[trigger] old(self).is_live(i) && old(self).address(i) == p;
                assert(self.is_live(i));
            }
        }
    }
}

/// The level of the block with the given tree index.
pub fn get_block_level(free_tree_index: usize) -> (r: usize)
    requires
        free_tree_index < usize::MAX,
    ensures
        r == level_of(free_tree_index as nat),
{
    let half: usize = (free_tree_index + 1) >> 1;
    let ghost target = level_of(free_tree_index as nat);
    proof {
        assert((free_tree_index + 1) as usize >> 1 == (free_tree_index + 1) as usize / 2)
            by (bit_vector);
        lemma_level_bounds(free_tree_index as nat);
        vstd::arithmetic::power2::lemma2_to64();
        if target > 0 {
            vstd::arithmetic::power2::lemma_pow2_unfold(target);
        }
        vstd::arithmetic::power2::lemma_pow2_unfold(target + 1);
        if target >= usize::BITS {
            crate::buddy_tree::index::lemma_pow2_monotone(usize::BITS as nat, target);
            vstd::arithmetic::power2::lemma2_to64_rest();
        }
    }
    let mut level: usize = 0;
    while level < usize::BITS as usize && (1usize << level) <= half
        invariant
            level <= target,
            target < usize::BITS,
            target > 0 ==> pow2((target - 1) as nat) <= half,
            half < pow2(target),
        decreases target - level,
    {
        proof {
            vstd::bits::lemma_usize_pow2_no_overflow(level as nat);
            vstd::bits::lemma_usize_shl_is_mul(1, level);
            if level >= target {
                crate::buddy_tree::index::lemma_pow2_monotone(target, level as nat);
            }
        }
        level += 1;
    }
    proof {
        if level < target {
            vstd::bits::lemma_usize_pow2_no_overflow(level as nat);
            vstd::bits::lemma_usize_shl_is_mul(1, level);
            crate::buddy_tree::index::lemma_pow2_monotone(level as nat, (target - 1) as nat);
        }
    }
    level
}

} // verus!
