use crate::buddy_tree::index::{cell_count, first_cell, lemma_level_in_tree, level_of, node_count};
use crate::buddy_tree::region::{
    address_of, best_level, block_bytes, cell_bytes, lemma_address, lemma_addresses_disjoint,
    lemma_best_level, lemma_block_bytes, region_ok,
};
use crate::buddy_tree::state::initial_state;
use crate::buddy_tree::{
    merge_lists, merge_state, merged_block, source_level, split_lists, split_state, BuddyTree,
};
use vstd::prelude::*;

verus! {

/// Size of a smallest block, in bytes.
pub type BlockSize = u16;

/// Level of a block: 0 is the whole heap, each level halves the blocks.
pub type BlockLevel = u8;

/// Position of a block in the tree of blocks.
pub type FreeTreeIndex = u16;

/// Number of bytes of the record that a free block carries: two links and
/// a tree index, one machine word each.
pub open spec fn node_bytes() -> int {
    3 * (usize::BITS as int / 8)
}

/// A buddy allocator over the heap `[heap_start, heap_start + heap_size)`.
/// An allocation is named by its address together with its level and its
/// tree index, which the caller hands back to release it.
pub struct Allocator {
    /// Address of the first byte of the heap.
    pub heap_start: usize,
    /// Number of bytes of the heap, a power of two.
    pub heap_size: usize,
    /// Which blocks are free and which are live.
    pub tree: BuddyTree,
}

impl Allocator {
    /// Number of levels.
    pub open spec fn levels(&self) -> nat {
        self.tree.levels()
    }

    /// Address of block `i`.
    pub open spec fn address(&self, i: nat) -> int {
        address_of(self.heap_start as int, self.heap_size as int, self.levels(), i)
    }

    /// Size in bytes of the blocks of `level`.
    pub open spec fn level_bytes(&self, level: nat) -> int {
        block_bytes(self.heap_size as int, level)
    }

    /// Whether block `i` is a live allocation.
    pub open spec fn is_live(&self, i: nat) -> bool {
        self.tree.is_live(i)
    }

    /// Whether block `i` is free as a whole, and so on a free list.
    pub open spec fn is_free(&self, i: nat) -> bool {
        self.tree.is_free(i)
    }

    /// The block that serves a request for `requested_size` bytes: the
    /// lower-half descendant, at the best level for the request, of the
    /// head of the free list of the finest level up to that level that has
    /// a free block. `None` if the request is larger than the heap or all
    /// those lists are empty.
    pub open spec fn served_block(&self, requested_size: usize) -> Option<nat> {
        let best = best_level(self.heap_size as int, self.levels(), requested_size as int);
        let source = source_level(self.tree.free_lists(), best as int);
        if requested_size > self.heap_size || source < 0 {
            None
        } else {
            Some(
                crate::buddy_tree::index::leftmost(
                    self.tree.free_lists()[source][0],
                    (best - source) as nat,
                ),
            )
        }
    }

    /// Whether `after` is this allocator after a call of `allocate` for
    /// `requested_size` bytes: the heap is the same; if the request is
    /// served, the block it is cut from is divided and the block handed
    /// out is live; if not, the tree and the free lists are as before.
    pub open spec fn after_allocate(&self, requested_size: usize, after: &Self) -> bool {
        let best = best_level(self.heap_size as int, self.levels(), requested_size as int);
        let source = source_level(self.tree.free_lists(), best as int);
        let taken = self.tree.free_lists()[source][0];
        let down = (best - source) as nat;
        &&& after.heap_start == self.heap_start
        &&& after.heap_size == self.heap_size
        &&& after.levels() == self.levels()
        &&& if self.served_block(requested_size) is Some {
            &&& after.tree.state() == split_state(self.tree.state(), taken, down)
            &&& after.tree.free_lists() == split_lists(
                self.tree.free_lists().update(source, self.tree.free_lists()[source].drop_first()),
                taken,
                source,
                down,
            )
        } else {
            &&& after.tree.state() == self.tree.state()
            &&& after.tree.free_lists() == self.tree.free_lists()
            &&& after.tree.free_tree() == self.tree.free_tree()
        }
    }

    /// Whether `after` is this allocator after a call of `deallocate` for
    /// live block `index`: the heap is the same, and the block is joined
    /// with its buddy as long as that is free and put on a free list.
    pub open spec fn after_deallocate(&self, index: nat, after: &Self) -> bool {
        &&& after.heap_start == self.heap_start
        &&& after.heap_size == self.heap_size
        &&& after.levels() == self.levels()
        &&& after.tree.state() == merge_state(self.tree.state(), index)
        &&& after.tree.free_lists() == merge_lists(
            self.tree.free_lists(),
            self.tree.state(),
            index,
        )
    }

    /// Total size of the free blocks.
    pub open spec fn free_bytes(&self) -> int {
        self.tree.free_cells() * cell_bytes(self.heap_size as int, self.levels())
    }

    /// Total size of the blocks of the live allocations.
    pub open spec fn live_bytes(&self) -> int {
        self.tree.live_cells() * cell_bytes(self.heap_size as int, self.levels())
    }

    /// The tree is sound, the heap is a region that the tree can manage,
    /// a tree index fits in 16 bits, and a smallest block holds the record
    /// of a free block and has a size that fits in 16 bits.
    pub open spec fn wf(&self) -> bool {
        &&& self.tree.wf()
        &&& region_ok(self.heap_start as int, self.heap_size as int, self.levels())
        &&& self.levels() <= 16
        &&& node_bytes() <= cell_bytes(self.heap_size as int, self.levels()) <= u16::MAX
    }

    /// An allocator over the heap at `heap_start` in which the whole heap
    /// is one free block of level 0.
    pub fn new(heap_start: usize, heap_size: usize, block_levels: BlockLevel) -> (r: Self)
        requires
            region_ok(heap_start as int, heap_size as int, block_levels as nat),
            block_levels <= 16,
            node_bytes() <= cell_bytes(heap_size as int, block_levels as nat) <= u16::MAX,
        ensures
            r.wf(),
            r.heap_start == heap_start,
            r.heap_size == heap_size,
            r.levels() == block_levels,
            r.tree.state() == initial_state(block_levels as nat),
            r.tree.free_lists() == Seq::new(block_levels as nat, |l: int| Seq::<nat>::empty()).update(
                0,
                seq![0nat],
            ),
            r.is_free(0),
    {
        proof {
            vstd::arithmetic::power2::lemma_pow2_pos(block_levels as nat);
            vstd::arithmetic::power2::lemma_pow2_strictly_increases(0, block_levels as nat);
            vstd::arithmetic::power2::lemma2_to64();
        }
        Allocator { heap_start, heap_size, tree: BuddyTree::new(block_levels as usize) }
    }

    /// Number of levels.
    pub fn get_block_levels(&self) -> (r: BlockLevel)
        requires
            self.wf(),
        ensures
            r == self.levels(),
    {
        self.tree.level_count() as BlockLevel
    }

    /// Size of a smallest block.
    pub fn get_block_size(&self) -> (r: BlockSize)
        requires
            self.wf(),
        ensures
            r == cell_bytes(self.heap_size as int, self.levels()),
    {
        let top: usize = self.tree.level_count() - 1;
        proof {
            vstd::bits::lemma_usize_shr_is_div(self.heap_size, top);
        }
        (self.heap_size >> top) as BlockSize
    }

    /// Allocates `requested_size` bytes. The block is of the finest level
    /// whose blocks hold that many bytes, cut from the smallest free block
    /// that is large enough. Returns the address, the level and the tree
    /// index of the block, or `(0, MAX, MAX)` if the request is larger than
    /// the heap or no free block is large enough.
    pub fn allocate(&mut self, requested_size: usize) -> (r: (usize, BlockLevel, FreeTreeIndex))
        requires
            old(self).wf(),
        ensures
            final(self).wf(),
            final(self).heap_start == old(self).heap_start,
            final(self).heap_size == old(self).heap_size,
            final(self).levels() == old(self).levels(),
            old(self).after_allocate(requested_size, final(self)),
            r.0 == 0 <==> old(self).served_block(requested_size) is None,
            r.0 != 0 ==> old(self).served_block(requested_size) == Some(r.2 as nat),
            ({
                let best = best_level(
                    old(self).heap_size as int,
                    old(self).levels(),
                    requested_size as int,
                );
                let source = source_level(old(self).tree.free_lists(), best as int);
                let taken = old(self).tree.free_lists()[source][0];
                let down = (best - source) as nat;
                if requested_size > old(self).heap_size || source < 0 {
                    &&& r == (0usize, BlockLevel::MAX, FreeTreeIndex::MAX)
                    &&& final(self).tree.state() == old(self).tree.state()
                    &&& final(self).tree.free_lists() == old(self).tree.free_lists()
                    &&& final(self).tree.free_tree() == old(self).tree.free_tree()
                } else {
                    &&& r.0 != 0
                    &&& r.1 == best
                    &&& r.2 == crate::buddy_tree::index::leftmost(taken, down)
                    &&& r.2 < node_count(old(self).levels())
                    &&& level_of(r.2 as nat) == best
                    &&& old(self).is_free(taken)
                    &&& r.0 == old(self).address(r.2 as nat)
                    &&& r.0 == old(self).address(taken)
                    &&& r.0 % (old(self).level_bytes(best) as usize) == 0
                    &&& old(self).level_bytes(best) >= requested_size
                    &&& best + 1 < old(self).levels() ==> old(self).level_bytes(best + 1)
                        < requested_size
                    &&& old(self).heap_start <= r.0
                    &&& r.0 + old(self).level_bytes(best) <= old(self).heap_start + old(
                        self,
                    ).heap_size
                    &&& final(self).tree.state() == split_state(
                        old(self).tree.state(),
                        taken,
                        down,
                    )
                    &&& final(self).tree.free_lists() == split_lists(
                        old(self).tree.free_lists().update(
                            source,
                            old(self).tree.free_lists()[source].drop_first(),
                        ),
                        taken,
                        source,
                        down,
                    )
                    &&& !old(self).is_live(r.2 as nat)
                    &&& forall|i: nat| final(self).is_live(i) <==> old(self).is_live(i) || i == r.2
                }
            }),
    {
        let ghost levels = self.levels();
        if requested_size > self.heap_size {
            return (0, BlockLevel::MAX, FreeTreeIndex::MAX);
        }
        let block_levels: usize = self.tree.level_count();
        let mut level: usize = 0;
        proof {
            lemma_block_bytes(self.heap_size as int, levels, 0);
        }
        while level + 1 < block_levels
            invariant
                self == old(self),
                self.wf(),
                levels == self.levels(),
                block_levels == levels,
                level < block_levels,
                block_bytes(self.heap_size as int, level as nat) >= requested_size,
            ensures
                level + 1 == block_levels || block_bytes(self.heap_size as int, (level + 1) as nat)
                    < requested_size,
            decreases block_levels - level,
        {
            proof {
                vstd::bits::lemma_usize_shr_is_div(self.heap_size, (level + 1) as usize);
            }
            if (self.heap_size >> (level + 1)) < requested_size {
                break ;
            }
            level += 1;
        }
        proof {
            lemma_best_level(self.heap_size as int, levels, requested_size as int, level as nat);
        }
        match self.tree.allocate(level) {
            None => (0, BlockLevel::MAX, FreeTreeIndex::MAX),
            Some((cell, index)) => {
                let top: usize = block_levels - 1;
                proof {
                    vstd::bits::lemma_usize_shr_is_div(self.heap_size, top);
                    lemma_address(
                        self.heap_start as int,
                        self.heap_size as int,
                        levels,
                        index as nat,
                    );
                    lemma_block_bytes(self.heap_size as int, levels, level as nat);
                    vstd::bits::lemma_usize_pow2_no_overflow(16);
                    vstd::arithmetic::power2::lemma2_to64();
                    crate::buddy_tree::index::lemma_pow2_monotone(levels, 16);
                    let taken = old(self).tree.free_lists()[source_level(
                        old(self).tree.free_lists(),
                        level as int,
                    )][0];
                    assert(first_cell(levels, taken) == first_cell(levels, index as nat));
                }
                let cell_size: usize = self.heap_size >> top;
                assert(cell * cell_size >= 0 && cell * cell_size <= self.heap_size) by (nonlinear_arith)
                    requires
                        cell * cell_size + self.heap_start + block_bytes(
                            self.heap_size as int,
                            level as nat,
                        ) <= self.heap_start + self.heap_size,
                        block_bytes(self.heap_size as int, level as nat) >= 0,
                        cell >= 0,
                        cell_size >= 0,
                ;
                (self.heap_start + cell * cell_size, level as BlockLevel, index as FreeTreeIndex)
            },
        }
    }

    /// Releases the allocation at `ptr`, of the given level and tree index,
    /// as `allocate` returned them. The block is joined with its buddy as
    /// long as the buddy is free, and what results is put at the head of
    /// the free list of its level.
    pub fn deallocate(&mut self, ptr: usize, level: BlockLevel, free_tree_index: FreeTreeIndex)
        requires
            old(self).wf(),
            old(self).is_live(free_tree_index as nat),
            level == level_of(free_tree_index as nat),
            ptr == old(self).address(free_tree_index as nat),
        ensures
            final(self).wf(),
            final(self).heap_start == old(self).heap_start,
            final(self).heap_size == old(self).heap_size,
            final(self).levels() == old(self).levels(),
            old(self).after_deallocate(free_tree_index as nat, final(self)),
            final(self).tree.state() == merge_state(
                old(self).tree.state(),
                free_tree_index as nat,
            ),
            final(self).tree.free_lists() == merge_lists(
                old(self).tree.free_lists(),
                old(self).tree.state(),
                free_tree_index as nat,
            ),
            final(self).is_free(merged_block(old(self).tree.state(), free_tree_index as nat)),
            forall|i: nat| final(self).is_live(i) <==> old(self).is_live(i) && i != free_tree_index,
    {
        let ghost levels = self.levels();
        let top: usize = self.tree.level_count() - 1;
        proof {
            vstd::bits::lemma_usize_shr_is_div(self.heap_size, top);
            lemma_level_in_tree(free_tree_index as nat, levels);
            lemma_address(
                self.heap_start as int,
                self.heap_size as int,
                levels,
                free_tree_index as nat,
            );
        }
        let cell_size: usize = self.heap_size >> top;
        let cell: usize = (ptr - self.heap_start) / cell_size;
        self.tree.deallocate(level as usize, cell, free_tree_index as usize);
    }

    /// Conservation: the sizes of the free blocks and of the live
    /// allocations add up to the size of the heap.
    pub proof fn lemma_conservation(&self)
        requires
            self.wf(),
        ensures
            self.free_bytes() + self.live_bytes() == self.heap_size,
    {
        self.tree.lemma_conservation();
        lemma_block_bytes(self.heap_size as int, self.levels(), 0);
        let cb = cell_bytes(self.heap_size as int, self.levels());
        assert(self.tree.free_cells() * cb + self.tree.live_cells() * cb == cb * cell_count(
            self.levels(),
        )) by (nonlinear_arith)
            requires
                self.tree.free_cells() + self.tree.live_cells() == cell_count(self.levels()),
        ;
    }

    /// Alignment: a block starts at a multiple of its size, inside the
    /// heap.
    pub proof fn lemma_aligned(&self, i: nat)
        requires
            self.wf(),
            i < node_count(self.levels()),
        ensures
            self.address(i) % self.level_bytes(level_of(i)) == 0,
            self.heap_start <= self.address(i),
            self.address(i) + self.level_bytes(level_of(i)) <= self.heap_start + self.heap_size,
    {
        lemma_level_in_tree(i, self.levels());
        lemma_address(self.heap_start as int, self.heap_size as int, self.levels(), i);
    }

    /// Non-overlap: two different blocks, each a live allocation or a free
    /// block, have no byte in common.
    pub proof fn lemma_no_overlap(&self, a: nat, b: nat)
        requires
            self.wf(),
            a != b,
            self.is_live(a) || self.is_free(a),
            self.is_live(b) || self.is_free(b),
        ensures
            self.address(a) + self.level_bytes(level_of(a)) <= self.address(b) || self.address(b)
                + self.level_bytes(level_of(b)) <= self.address(a),
    {
        self.tree.lemma_disjoint(a, b);
        lemma_level_in_tree(a, self.levels());
        lemma_level_in_tree(b, self.levels());
        lemma_addresses_disjoint(
            self.heap_start as int,
            self.heap_size as int,
            self.levels(),
            a,
            b,
        );
    }
}

} // verus!
