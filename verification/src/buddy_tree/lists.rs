use crate::buddy_tree::index::{cell_count, first_cell, lemma_block_in_region, level_of, node_count};

use vstd::prelude::*;

verus! {

/// The record that a free block carries while it is on a free list. It is
/// kept in the slot of the block's first cell, as the first words of the
/// block would hold it.
#[derive(Clone, Copy, Debug)]
pub struct FreeListNode {
    /// First cell of the next block on the list.
    pub next: Option<usize>,
    /// First cell of the block before this one; `None` for the head.
    pub previous: Option<usize>,
    /// Tree index of the block itself.
    pub free_tree_index: usize,
}

/// One doubly-linked list of free blocks per level. A block is named by
/// its first cell; the links are such names.
pub struct FreeLists {
    heads: Vec<Option<usize>>,
    nodes: Vec<FreeListNode>,
    lists: Ghost<Seq<Seq<nat>>>,
}

impl FreeLists {
    /// For each level the tree indices of the listed blocks, head first.
    pub closed spec fn view(&self) -> Seq<Seq<nat>> {
        self.lists@
    }

    /// Number of levels, one list each.
    pub closed spec fn levels(&self) -> nat {
        self.heads@.len()
    }

    /// The link that names entry `j` of list `l`, `None` past either end.
    pub closed spec fn link(&self, l: int, j: int) -> Option<usize> {
        if 0 <= j < self.lists@[l].len() {
            Some(first_cell(self.levels(), self.lists@[l][j]) as usize)
        } else {
            None
        }
    }

    /// Entry `j` of list `l` is a block of level `l` whose record names
    /// the block and its two neighbours.
    pub closed spec fn entry_ok(&self, l: int, j: int) -> bool {
        let idx = self.lists@[l][j];
        let node = self.nodes@[first_cell(self.levels(), idx) as int];
        &&& level_of(idx) == l
        &&& node.free_tree_index == idx
        &&& node.next == self.link(l, j + 1)
        &&& node.previous == self.link(l, j - 1)
    }

    /// The heads and records spell out exactly the lists of the view, and
    /// no list names a block twice.
    pub closed spec fn wf(&self) -> bool {
        &&& 1 <= self.levels() < usize::BITS
        &&& self.nodes@.len() == cell_count(self.levels())
        &&& self.lists@.len() == self.levels()
        &&& forall|l: int| 0 <= l < self.levels() ==> #[trigger] self.heads@[l] == self.link(l, 0)
        &&& forall|l: int| 0 <= l < self.levels() ==> (#[trigger] self.lists@[l]).no_duplicates()
        &&& forall|l: int, j: int|
            0 <= l < self.levels() && 0 <= j < self.lists@[l].len() ==> #[trigger] self.entry_ok(
                l,
                j,
            )
    }

    /// Two entries whose blocks start at the same cell are the same entry.
    proof fn lemma_same_cell(&self, l1: int, j1: int, l2: int, j2: int)
        requires
            self.wf(),
            0 <= l1 < self.levels(),
            0 <= j1 < self.lists@[l1].len(),
            0 <= l2 < self.levels(),
            0 <= j2 < self.lists@[l2].len(),
            first_cell(self.levels(), self.lists@[l1][j1]) == first_cell(
                self.levels(),
                self.lists@[l2][j2],
            ),
        ensures
            l1 == l2,
            j1 == j2,
    {
        assert(self.entry_ok(l1, j1));
        assert(self.entry_ok(l2, j2));
    }

    /// The cell that names a listed block is a slot of the table.
    proof fn lemma_cell_in_table(&self, l: int, j: int)
        requires
            self.wf(),
            0 <= l < self.levels(),
            0 <= j < self.lists@[l].len(),
        ensures
            first_cell(self.levels(), self.lists@[l][j]) < self.nodes@.len(),
            self.nodes@.len() <= usize::MAX,
            self.link(l, j) == Some(first_cell(self.levels(), self.lists@[l][j]) as usize),
            first_cell(self.levels(), self.lists@[l][j]) as usize == first_cell(
                self.levels(),
                self.lists@[l][j],
            ),
    {
        assert(self.entry_ok(l, j));
        lemma_block_in_region(self.levels(), self.lists@[l][j]);
        vstd::bits::lemma_usize_pow2_no_overflow((self.levels() - 1) as nat);
    }

    /// `levels` empty lists over a table of `2^(levels - 1)` slots.
    pub fn new(levels: usize) -> (r: Self)
        requires
            1 <= levels < usize::BITS,
        ensures
            r.wf(),
            r.levels() == levels,
            r@ == Seq::new(levels as nat, |l: int| Seq::<nat>::empty()),
    {
        proof {
            vstd::bits::lemma_usize_pow2_no_overflow((levels - 1) as nat);
            vstd::bits::lemma_usize_shl_is_mul(1, (levels - 1) as usize);
        }
        let cells: usize = 1usize << (levels - 1);
        let mut heads: Vec<Option<usize>> = Vec::new();
        let mut l: usize = 0;
        while l < levels
            invariant
                l <= levels,
                heads@.len() == l,
                forall|k: int| 0 <= k < l ==> heads@[k] is None,
            decreases levels - l,
        {
            heads.push(None);
            l += 1;
        }
        let mut nodes: Vec<FreeListNode> = Vec::new();
        let mut c: usize = 0;
        while c < cells
            invariant
                c <= cells,
                nodes@.len() == c,
            decreases cells - c,
        {
            nodes.push(FreeListNode { next: None, previous: None, free_tree_index: 0 });
            c += 1;
        }
        let r = FreeLists {
            heads,
            nodes,
            lists: Ghost(Seq::new(levels as nat, |l: int| Seq::<nat>::empty())),
        };
        proof {
            assert forall|l: int| 0 <= l < r.levels() implies (#[trigger] r.lists@[l]).no_duplicates() by {}
        }
        r
    }

    /// The head of the list of `level`, by its first cell.
    pub fn head(&self, level: usize) -> (r: Option<usize>)
        requires
            self.wf(),
            level < self.levels(),
        ensures
            r is None <==> self@[level as int].len() == 0,
            r is Some ==> r->0 == first_cell(self.levels(), self@[level as int][0]),
            r is Some ==> r->0 < cell_count(self.levels()),
    {
        proof {
            assert(self.heads@[level as int] == self.link(level as int, 0));
            if self.lists@[level as int].len() > 0 {
                self.lemma_cell_in_table(level as int, 0);
            }
        }
        self.heads[level]
    }

    /// The cell that names entry `j` of list `l`; `None` past either end
    /// of the list.
    pub open spec fn neighbour(&self, l: int, j: int) -> Option<usize> {
        if 0 <= j < self@[l].len() {
            Some(first_cell(self.levels(), self@[l][j]) as usize)
        } else {
            None
        }
    }

    /// Whether `node` is the record of entry `j` of list `l`: it names the
    /// block itself, the entry after it and the entry before it. The head
    /// of a list has no entry before it, every other entry has one.
    pub open spec fn is_record(&self, node: FreeListNode, l: int, j: int) -> bool {
        &&& node.free_tree_index == self@[l][j]
        &&& node.next == self.neighbour(l, j + 1)
        &&& node.previous == self.neighbour(l, j - 1)
    }

    /// The record of the listed block that starts at `cell`.
    pub fn record(&self, cell: usize) -> (r: FreeListNode)
        requires
            self.wf(),
            self.uses_cell(cell as nat),
        ensures
            exists|l: int, j: int|
                0 <= l < self.levels() && 0 <= j < self@[l].len() && first_cell(
                    self.levels(),
                    #[trigger] self@[l][j],
                ) == cell && self.is_record(r, l, j),
    {
        proof {
            let (l, j) = choose|l: int, j: int|
                0 <= l < self.levels() && 0 <= j < self@[l].len() && first_cell(
                    self.levels(),
                    #[trigger] self@[l][j],
                ) == cell as nat;
            assert(self.entry_ok(l, j));
            self.lemma_cell_in_table(l, j);
            assert(self.is_record(self.nodes@[cell as int], l, j));
        }
        self.nodes[cell]
    }

    /// Takes the head off the list of `level` and returns its first cell
    /// and its tree index.
    pub fn pop_front(&mut self, level: usize) -> (r: (usize, usize))
        requires
            old(self).wf(),
            level < old(self).levels(),
            old(self)@[level as int].len() > 0,
        ensures
            final(self).wf(),
            final(self).levels() == old(self).levels(),
            final(self)@ == old(self)@.update(level as int, old(self)@[level as int].drop_first()),
            r.1 == old(self)@[level as int][0],
            r.0 == first_cell(old(self).levels(), r.1 as nat),
            r.1 < node_count(old(self).levels()),
            level_of(r.1 as nat) == level,
    {
        let ghost levels = self.levels();
        let ghost old_list = self.lists@[level as int];
        proof {
            assert(self.heads@[level as int] == self.link(level as int, 0));
            assert(self.entry_ok(level as int, 0));
            self.lemma_cell_in_table(level as int, 0);
            crate::buddy_tree::index::lemma_level_in_tree(old_list[0], levels);
        }
        let cell: usize = self.heads[level].unwrap();
        let node: FreeListNode = self.nodes[cell];
        match node.next {
            Some(next) => {
                proof {
                    self.lemma_cell_in_table(level as int, 1);
                    assert(self.entry_ok(level as int, 1));
                }
                let mut follower: FreeListNode = self.nodes[next];
                follower.previous = None;
                self.nodes[next] = follower;
            },
            None => {},
        }
        self.heads[level] = node.next;
        proof {
            self.lists@ = self.lists@.update(level as int, old_list.drop_first());
            let old_self = *old(self);
            assert forall|l: int| 0 <= l < self.levels() implies #[trigger] self.heads@[l]
                == self.link(l, 0) by {
                assert(old_self.heads@[l] == old_self.link(l, 0));
            }
            assert forall|l: int| 0 <= l < self.levels() implies (
            #[trigger] self.lists@[l]).no_duplicates() by {
                assert(old_self.lists@[l].no_duplicates());
            }
            assert forall|l: int, j: int|
                0 <= l < self.levels() && 0 <= j < self.lists@[l].len() implies #[trigger] self.entry_ok(
                l,
                j,
            ) by {
                if l == level {
                    assert(old_self.entry_ok(l, j + 1));
                    old_self.lemma_cell_in_table(l, j + 1);
                    old_self.lemma_cell_in_table(l, 1);
                    if first_cell(levels, old_list[j + 1]) == first_cell(levels, old_list[1]) {
                        old_self.lemma_same_cell(l, j + 1, l, 1);
                    }
                } else {
                    old_self.lemma_cell_in_table(l, j);
                    if old_list.len() > 1 {
                        old_self.lemma_cell_in_table(level as int, 1);
                    }
                    assert(old_self.entry_ok(l, j));
                    if old_list.len() > 1 && first_cell(levels, self.lists@[l][j]) == first_cell(
                        levels,
                        old_list[1],
                    ) {
                        old_self.lemma_same_cell(l, j, level as int, 1);
                    }
                }
            }
        }
        (cell, node.free_tree_index)
    }

    /// Whether some list names a block that starts at `cell`.
    pub open spec fn uses_cell(&self, cell: nat) -> bool {
        exists|l: int, j: int|
            0 <= l < self.levels() && 0 <= j < self@[l].len() && first_cell(
                self.levels(),
                #[trigger] self@[l][j],
            ) == cell
    }

    /// Puts block `idx`, which starts at `cell`, at the head of the list
    /// of its level.
    pub fn push_front(&mut self, level: usize, cell: usize, idx: usize)
        requires
            old(self).wf(),
            level < old(self).levels(),
            level_of(idx as nat) == level,
            cell == first_cell(old(self).levels(), idx as nat),
            !old(self).uses_cell(cell as nat),
        ensures
            final(self).wf(),
            final(self).levels() == old(self).levels(),
            final(self)@ == old(self)@.update(
                level as int,
                seq![idx as nat] + old(self)@[level as int],
            ),
    {
        let ghost levels = self.levels();
        let ghost old_list = self.lists@[level as int];
        let ghost new_list = seq![idx as nat] + old_list;
        proof {
            lemma_block_in_region(levels, idx as nat);
            assert(self.heads@[level as int] == self.link(level as int, 0));
        }
        let head: Option<usize> = self.heads[level];
        match head {
            Some(first) => {
                proof {
                    self.lemma_cell_in_table(level as int, 0);
                }
                let mut follower: FreeListNode = self.nodes[first];
                follower.previous = Some(cell);
                self.nodes[first] = follower;
            },
            None => {},
        }
        self.nodes[cell] = FreeListNode { next: head, previous: None, free_tree_index: idx };
        self.heads[level] = Some(cell);
        proof {
            self.lists@ = self.lists@.update(level as int, new_list);
            let old_self = *old(self);
            assert forall|l: int, j: int|
                0 <= l < levels && 0 <= j < old_self.lists@[l].len() implies first_cell(
                levels,
                #[trigger] old_self.lists@[l][j],
            ) != cell && old_self.lists@[l][j] != idx by {
                if first_cell(levels, old_self.lists@[l][j]) == cell {
                    assert(first_cell(old_self.levels(), old_self@[l][j]) == cell);
                    assert(old_self.uses_cell(cell as nat));
                }
            }
            assert forall|l: int| 0 <= l < self.levels() implies #[trigger] self.heads@[l]
                == self.link(l, 0) by {
                assert(old_self.heads@[l] == old_self.link(l, 0));
            }
            assert forall|l: int| 0 <= l < self.levels() implies (
            #[trigger] self.lists@[l]).no_duplicates() by {
                assert(old_self.lists@[l].no_duplicates());
                if l == level {
                    assert forall|a: int, b: int|
                        0 <= a < new_list.len() && 0 <= b < new_list.len() && a != b implies new_list[a]
                        != new_list[b] by {
                        if a > 0 {
                            assert(new_list[a] == old_list[a - 1]);
                        }
                        if b > 0 {
                            assert(new_list[b] == old_list[b - 1]);
                        }
                    }
                }
            }
            assert forall|l: int, j: int|
                0 <= l < self.levels() && 0 <= j < self.lists@[l].len() implies #[trigger] self.entry_ok(
                l,
                j,
            ) by {
                if old_list.len() > 0 {
                    old_self.lemma_cell_in_table(level as int, 0);
                }
                if l == level {
                    if j > 0 {
                        assert(new_list[j] == old_list[j - 1]);
                        assert(old_self.entry_ok(l, j - 1));
                        old_self.lemma_cell_in_table(l, j - 1);
                        if j + 1 < new_list.len() {
                            assert(new_list[j + 1] == old_list[j]);
                            old_self.lemma_cell_in_table(l, j);
                        }
                        if j > 1 {
                            assert(new_list[j - 1] == old_list[j - 2]);
                            old_self.lemma_cell_in_table(l, j - 2);
                            if first_cell(levels, old_list[j - 1]) == first_cell(
                                levels,
                                old_list[0],
                            ) {
                                old_self.lemma_same_cell(l, j - 1, l, 0);
                            }
                        }
                    } else {
                        if new_list.len() > 1 {
                            assert(new_list[1] == old_list[0]);
                        }
                    }
                } else {
                    assert(old_self.entry_ok(l, j));
                    old_self.lemma_cell_in_table(l, j);
                    if old_list.len() > 0 && first_cell(levels, self.lists@[l][j]) == first_cell(
                        levels,
                        old_list[0],
                    ) {
                        old_self.lemma_same_cell(l, j, level as int, 0);
                    }
                }
            }
        }
    }

    /// Takes block `idx`, which starts at `cell`, out of the list of its
    /// level, wherever it stands there.
    pub fn unlink(&mut self, level: usize, cell: usize, idx: usize)
        requires
            old(self).wf(),
            level < old(self).levels(),
            old(self)@[level as int].contains(idx as nat),
            cell == first_cell(old(self).levels(), idx as nat),
        ensures
            final(self).wf(),
            final(self).levels() == old(self).levels(),
            final(self)@ == old(self)@.update(
                level as int,
                old(self)@[level as int].remove(old(self)@[level as int].index_of(idx as nat)),
            ),
    {
        let ghost levels = self.levels();
        let ghost old_list = self.lists@[level as int];
        let ghost at = old_list.index_of(idx as nat);
        let ghost new_list = old_list.remove(at);
        proof {
            assert(0 <= at < old_list.len() && old_list[at] == idx);
            assert(self.entry_ok(level as int, at));
            self.lemma_cell_in_table(level as int, at);
            assert(self.heads@[level as int] == self.link(level as int, 0));
            if at > 0 {
                self.lemma_cell_in_table(level as int, at - 1);
                self.lemma_cell_in_table(level as int, 0);
                if first_cell(levels, old_list[0]) == cell {
                    self.lemma_same_cell(level as int, 0, level as int, at);
                }
            }
            if at + 1 < old_list.len() {
                self.lemma_cell_in_table(level as int, at + 1);
            }
        }
        let node: FreeListNode = self.nodes[cell];
        match node.next {
            Some(next) => {
                let mut follower: FreeListNode = self.nodes[next];
                follower.previous = node.previous;
                self.nodes[next] = follower;
            },
            None => {},
        }
        match node.previous {
            Some(previous) => {
                let mut leader: FreeListNode = self.nodes[previous];
                leader.next = node.next;
                self.nodes[previous] = leader;
            },
            None => {
                self.heads[level] = node.next;
            },
        }
        proof {
            self.lists@ = self.lists@.update(level as int, new_list);
            let old_self = *old(self);
            assert forall|k: int| 0 <= k < new_list.len() implies #[trigger] new_list[k] == old_list[if k
                < at {
                k
            } else {
                k + 1
            }] by {}
            assert forall|l: int| 0 <= l < self.levels() implies #[trigger] self.heads@[l]
                == self.link(l, 0) by {
                assert(old_self.heads@[l] == old_self.link(l, 0));
                if l == level && new_list.len() > 0 {
                    assert(new_list[0] == old_list[if 0 < at {
                        0int
                    } else {
                        1int
                    }]);
                }
            }
            assert forall|l: int| 0 <= l < self.levels() implies (
            #[trigger] self.lists@[l]).no_duplicates() by {
                assert(old_self.lists@[l].no_duplicates());
                if l == level {
                    assert forall|a: int, b: int|
                        0 <= a < new_list.len() && 0 <= b < new_list.len() && a != b implies new_list[a]
                        != new_list[b] by {
                        assert(new_list[a] == old_list[if a < at {
                            a
                        } else {
                            a + 1
                        }]);
                        assert(new_list[b] == old_list[if b < at {
                            b
                        } else {
                            b + 1
                        }]);
                    }
                }
            }
            assert forall|l: int, j: int|
                0 <= l < self.levels() && 0 <= j < self.lists@[l].len() implies #[trigger] self.entry_ok(
                l,
                j,
            ) by {
                let o = if l == level && j >= at {
                    j + 1
                } else {
                    j
                };
                assert(old_self.entry_ok(l, o));
                old_self.lemma_cell_in_table(l, o);
                assert(self.lists@[l][j] == old_self.lists@[l][o]);
                let c = first_cell(levels, old_self.lists@[l][o]);
                if at > 0 && c == first_cell(levels, old_list[at - 1]) {
                    old_self.lemma_same_cell(l, o, level as int, at - 1);
                }
                if at + 1 < old_list.len() && c == first_cell(levels, old_list[at + 1]) {
                    old_self.lemma_same_cell(l, o, level as int, at + 1);
                }
                if l == level {
                    if o + 1 < old_list.len() {
                        old_self.lemma_cell_in_table(l, o + 1);
                    }
                    if o > 0 {
                        old_self.lemma_cell_in_table(l, o - 1);
                    }
                    if j + 1 < new_list.len() {
                        assert(new_list[j + 1] == old_list[if j + 1 < at {
                            j + 1
                        } else {
                            j + 2
                        }]);
                        old_self.lemma_cell_in_table(l, if j + 1 < at {
                            j + 1
                        } else {
                            j + 2
                        });
                    }
                    if j > 0 {
                        assert(new_list[j - 1] == old_list[if j - 1 < at {
                            j - 1
                        } else {
                            j
                        }]);
                        old_self.lemma_cell_in_table(l, if j - 1 < at {
                            j - 1
                        } else {
                            j
                        });
                    }
                }
            }
        }
    }
}

} // verus!
