use crate::allocator::{Allocator, BlockLevel, FreeTreeIndex};
use crate::buddy_tree::index::level_of;
use crate::buddy_tree::region::{cell_bytes, lemma_address, lemma_block_bytes};
use crate::data_structures::bits::{
    bit_at, bit_len, get_bit, lemma_with_bit, set_bit_false, set_bit_true,
};
use crate::utils::new_bitmask_vec;
use vstd::prelude::*;

verus! {

/// Name of a geometry.
pub type GeometryId = u16;

/// A vertex index.
pub type Index = u32;

/// Number of bytes of a vertex index.
pub const INDEX_SIZE: usize = 4;

/// Number of geometries that can exist at a time.
pub const MAX_ID_COUNT: usize = 100;

/// Where a geometry lies in the vertex and index buffers, as a draw call
/// needs it.
#[derive(Clone, Copy, PartialEq, Eq, Structural, Debug)]
pub struct Geometry {
    /// Offset in bytes of the vertices in the vertex buffer.
    pub vertex_offset: i32,
    /// Position of the first index in the index buffer, in indices.
    pub first_index: u32,
    /// Number of indices.
    pub index_count: u32,
}

/// What it takes to release the staging blocks of a geometry.
#[derive(Clone, Copy, PartialEq, Eq, Structural, Debug)]
pub struct GeometryDealloc {
    pub vertex_block_level: BlockLevel,
    pub vertex_free_tree_index: FreeTreeIndex,
    pub index_block_level: BlockLevel,
    pub index_free_tree_index: FreeTreeIndex,
}

/// A geometry that was created: its name, where in staging memory its
/// vertices and indices are to be written, and where in the buffers they
/// go.
#[derive(Clone, Copy, PartialEq, Eq, Structural, Debug)]
pub struct GeometryUpload {
    pub id: GeometryId,
    pub vertex_ptr: usize,
    pub index_ptr: usize,
    pub vertex_offset: usize,
    pub index_offset: usize,
}

impl Default for Geometry {
    /// The record of a geometry that does not exist.
    fn default() -> (r: Self)
        ensures
            r == (Geometry { vertex_offset: i32::MIN, first_index: 0, index_count: 0 }),
    {
        Geometry { vertex_offset: i32::MIN, first_index: 0, index_count: 0 }
    }
}

impl Default for GeometryDealloc {
    /// The record of a geometry that holds no staging blocks.
    fn default() -> (r: Self)
        ensures
            r == (GeometryDealloc {
                vertex_block_level: BlockLevel::MAX,
                vertex_free_tree_index: FreeTreeIndex::MAX,
                index_block_level: BlockLevel::MAX,
                index_free_tree_index: FreeTreeIndex::MAX,
            }),
    {
        GeometryDealloc {
            vertex_block_level: BlockLevel::MAX,
            vertex_free_tree_index: FreeTreeIndex::MAX,
            index_block_level: BlockLevel::MAX,
            index_free_tree_index: FreeTreeIndex::MAX,
        }
    }
}

/// The geometries that exist, each with a block of staging memory for its
/// vertices and one for its indices.
pub struct GeometryRegistry {
    pub id_to_geometry: Vec<Geometry>,
    pub id_to_geometry_dealloc: Vec<GeometryDealloc>,
    pub id_exists: Vec<usize>,
    pub available_ids: Vec<GeometryId>,
    pub geometry_count: usize,
    pub vertex_allocator: Allocator,
    pub index_allocator: Allocator,
}

impl GeometryRegistry {
    /// Whether geometry `id` exists.
    pub open spec fn exists_id(&self, id: int) -> bool {
        0 <= id < MAX_ID_COUNT && bit_at(self.id_exists@, id)
    }

    /// The records of geometry `id` name a live block of each allocator
    /// and say where it lies.
    pub open spec fn record_ok(&self, id: int) -> bool {
        let g = self.id_to_geometry@[id];
        let d = self.id_to_geometry_dealloc@[id];
        &&& self.vertex_allocator.is_live(d.vertex_free_tree_index as nat)
        &&& d.vertex_block_level == level_of(d.vertex_free_tree_index as nat)
        &&& g.vertex_offset >= 0
        &&& self.vertex_allocator.heap_start + g.vertex_offset == self.vertex_allocator.address(
            d.vertex_free_tree_index as nat,
        )
        &&& self.index_allocator.is_live(d.index_free_tree_index as nat)
        &&& d.index_block_level == level_of(d.index_free_tree_index as nat)
        &&& self.index_allocator.heap_start + g.first_index * INDEX_SIZE
            == self.index_allocator.address(d.index_free_tree_index as nat)
    }

    /// Both allocators are sound and their heaps small enough for the
    /// offsets of a draw call; every name is either available or that of
    /// an existing geometry; every existing geometry holds blocks of its
    /// own.
    pub open spec fn wf(&self) -> bool {
        &&& self.vertex_allocator.wf()
        &&& self.index_allocator.wf()
        &&& self.vertex_allocator.heap_size <= i32::MAX
        &&& self.index_allocator.heap_size <= u32::MAX
        &&& self.id_to_geometry@.len() == MAX_ID_COUNT
        &&& self.id_to_geometry_dealloc@.len() == MAX_ID_COUNT
        &&& bit_len(self.id_exists@) >= MAX_ID_COUNT
        &&& self.geometry_count + self.available_ids@.len() == MAX_ID_COUNT
        &&& self.available_ids@.no_duplicates()
        &&& forall|k: int|
            0 <= k < self.available_ids@.len() ==> (#[trigger] self.available_ids@[k])
                < MAX_ID_COUNT && !bit_at(self.id_exists@, self.available_ids@[k] as int)
        &&& forall|id: int| #![trigger bit_at(self.id_exists@, id)] self.exists_id(id) ==> self.record_ok(id)
        &&& forall|a: int, b: int|
            #![trigger bit_at(self.id_exists@, a), bit_at(self.id_exists@, b)]
            self.exists_id(a) && self.exists_id(b) && a != b ==> {
                &&& self.id_to_geometry_dealloc@[a].vertex_free_tree_index
                    != self.id_to_geometry_dealloc@[b].vertex_free_tree_index
                &&& self.id_to_geometry_dealloc@[a].index_free_tree_index
                    != self.id_to_geometry_dealloc@[b].index_free_tree_index
            }
    }

    /// A registry without geometries over the two allocators.
    pub fn new(vertex_allocator: Allocator, index_allocator: Allocator) -> (r: Self)
        requires
            vertex_allocator.wf(),
            index_allocator.wf(),
            vertex_allocator.heap_size <= i32::MAX,
            index_allocator.heap_size <= u32::MAX,
        ensures
            r.wf(),
            r.geometry_count == 0,
            r.vertex_allocator == vertex_allocator,
            r.index_allocator == index_allocator,
            forall|id: int| !r.exists_id(id),
            r.available_ids@.len() == MAX_ID_COUNT,
            forall|k: int| 0 <= k < MAX_ID_COUNT ==> r.available_ids@[k] == k,
            forall|k: int|
                0 <= k < MAX_ID_COUNT ==> r.id_to_geometry@[k] == (Geometry {
                    vertex_offset: i32::MIN,
                    first_index: 0,
                    index_count: 0,
                }),
    {
        let mut id_to_geometry: Vec<Geometry> = Vec::new();
        let mut id_to_geometry_dealloc: Vec<GeometryDealloc> = Vec::new();
        let mut available_ids: Vec<GeometryId> = Vec::new();
        let mut id: usize = 0;
        while id < MAX_ID_COUNT
            invariant
                id <= MAX_ID_COUNT,
                id_to_geometry@.len() == id,
                id_to_geometry_dealloc@.len() == id,
                available_ids@.len() == id,
                forall|k: int| 0 <= k < id ==> available_ids@[k] == k,
                forall|k: int|
                    0 <= k < id ==> id_to_geometry@[k] == (Geometry {
                        vertex_offset: i32::MIN,
                        first_index: 0,
                        index_count: 0,
                    }),
            decreases MAX_ID_COUNT - id,
        {
            id_to_geometry.push(Geometry::default());
            id_to_geometry_dealloc.push(GeometryDealloc::default());
            available_ids.push(id as GeometryId);
            id += 1;
        }
        GeometryRegistry {
            id_to_geometry,
            id_to_geometry_dealloc,
            id_exists: new_bitmask_vec(MAX_ID_COUNT, false),
            available_ids,
            geometry_count: 0,
            vertex_allocator,
            index_allocator,
        }
    }

    /// Creates a geometry of `vertices_size` bytes of vertices and
    /// `index_count` indices: takes a name and a staging block for each of
    /// the two, and records where they lie. Returns `None`, and leaves the
    /// geometries and the blocks of both allocators as they were, if no
    /// name is available or one of the allocators has no block that is
    /// large enough.
    pub fn create_geometry(&mut self, vertices_size: usize, index_count: u32) -> (r: Option<
        GeometryUpload,
    >)
        requires
            old(self).wf(),
        ensures
            final(self).wf(),
            r is None <==> old(self).available_ids@.len() == 0 || index_count * INDEX_SIZE
                > usize::MAX || old(self).vertex_allocator.served_block(vertices_size) is None
                || old(self).index_allocator.served_block((index_count * INDEX_SIZE) as usize)
                is None,
            match r {
                Some(upload) => {
                    let g = final(self).id_to_geometry@[upload.id as int];
                    let d = final(self).id_to_geometry_dealloc@[upload.id as int];
                    &&& upload.id == old(self).available_ids@.last()
                    &&& final(self).available_ids@ == old(self).available_ids@.drop_last()
                    &&& old(self).vertex_allocator.after_allocate(
                        vertices_size,
                        &final(self).vertex_allocator,
                    )
                    &&& old(self).index_allocator.after_allocate(
                        (index_count * INDEX_SIZE) as usize,
                        &final(self).index_allocator,
                    )
                    &&& d.vertex_block_level == level_of(d.vertex_free_tree_index as nat)
                    &&& d.index_block_level == level_of(d.index_free_tree_index as nat)
                    &&& Some(d.vertex_free_tree_index as nat) == old(
                        self,
                    ).vertex_allocator.served_block(vertices_size)
                    &&& Some(d.index_free_tree_index as nat) == old(
                        self,
                    ).index_allocator.served_block((index_count * INDEX_SIZE) as usize)
                    &&& upload.vertex_ptr == old(self).vertex_allocator.address(
                        d.vertex_free_tree_index as nat,
                    )
                    &&& upload.index_ptr == old(self).index_allocator.address(
                        d.index_free_tree_index as nat,
                    )
                    &&& !old(self).exists_id(upload.id as int)
                    &&& final(self).exists_id(upload.id as int)
                    &&& final(self).geometry_count == old(self).geometry_count + 1
                    &&& forall|id: int|
                        0 <= id < MAX_ID_COUNT && id != upload.id ==> final(self).exists_id(id)
                            == old(self).exists_id(id) && final(self).id_to_geometry@[id] == old(
                            self,
                        ).id_to_geometry@[id]
                    &&& upload.vertex_ptr == final(self).vertex_allocator.heap_start
                        + upload.vertex_offset
                    &&& upload.index_ptr == final(self).index_allocator.heap_start
                        + upload.index_offset
                    &&& g.vertex_offset == upload.vertex_offset
                    &&& g.first_index * INDEX_SIZE == upload.index_offset
                    &&& g.index_count == index_count
                    &&& upload.vertex_offset + vertices_size <= final(self).vertex_allocator.heap_size
                    &&& upload.index_offset + index_count * INDEX_SIZE
                        <= final(self).index_allocator.heap_size
                },
                None => {
                    &&& final(self).geometry_count == old(self).geometry_count
                    &&& forall|id: int| final(self).exists_id(id) == old(self).exists_id(id)
                    &&& final(self).id_to_geometry@ == old(self).id_to_geometry@
                    &&& final(self).available_ids@ == old(self).available_ids@
                    &&& final(self).vertex_allocator.tree.state() == old(
                        self,
                    ).vertex_allocator.tree.state()
                    &&& final(self).vertex_allocator.tree.free_lists() == old(
                        self,
                    ).vertex_allocator.tree.free_lists()
                    &&& final(self).index_allocator.tree.state() == old(
                        self,
                    ).index_allocator.tree.state()
                    &&& final(self).index_allocator.tree.free_lists() == old(
                        self,
                    ).index_allocator.tree.free_lists()
                },
            },
    {
        if self.available_ids.len() == 0 {
            return None;
        }
        if index_count as usize > usize::MAX / INDEX_SIZE {
            return None;
        }
        let indices_size: usize = index_count as usize * INDEX_SIZE;
        let (vertex_ptr, vertex_block_level, vertex_free_tree_index) =
            self.vertex_allocator.allocate(vertices_size);
        proof {
            self.lemma_records_kept(*old(self));
        }
        if vertex_ptr == 0 {
            return None;
        }
        let ghost mid = *self;
        let (index_ptr, index_block_level, index_free_tree_index) = self.index_allocator.allocate(
            indices_size,
        );
        proof {
            self.lemma_records_kept(mid);
        }
        if index_ptr == 0 {
            self.vertex_allocator.deallocate(
                vertex_ptr,
                vertex_block_level,
                vertex_free_tree_index,
            );
            proof {
                self.lemma_records_kept(*old(self));
                crate::buddy_tree::index::lemma_level_in_tree(
                    vertex_free_tree_index as nat,
                    old(self).vertex_allocator.levels(),
                );
                old(self).vertex_allocator.tree.lemma_allocate_then_release(
                    vertex_block_level as nat,
                );
            }
            return None;
        }
        let id: GeometryId = self.available_ids.pop().unwrap();
        proof {
            assert(old(self).available_ids@[old(self).available_ids@.len() - 1] == id);
            lemma_with_bit(self.id_exists@, id as int, true);
            crate::buddy_tree::index::lemma_level_in_tree(
                index_free_tree_index as nat,
                self.index_allocator.levels(),
            );
            crate::buddy_tree::index::lemma_level_in_tree(
                vertex_free_tree_index as nat,
                self.vertex_allocator.levels(),
            );
            lemma_address(
                self.vertex_allocator.heap_start as int,
                self.vertex_allocator.heap_size as int,
                self.vertex_allocator.levels(),
                vertex_free_tree_index as nat,
            );
            lemma_address(
                self.index_allocator.heap_start as int,
                self.index_allocator.heap_size as int,
                self.index_allocator.levels(),
                index_free_tree_index as nat,
            );
            lemma_cell_multiple_of_four(
                self.index_allocator.heap_size as int,
                self.index_allocator.levels(),
                (index_ptr - self.index_allocator.heap_start) as int,
            );
        }
        self.geometry_count += 1;
        let vertex_offset: usize = vertex_ptr - self.vertex_allocator.heap_start;
        let index_offset: usize = index_ptr - self.index_allocator.heap_start;
        self.id_to_geometry[id as usize] = Geometry {
            vertex_offset: vertex_offset as i32,
            first_index: (index_offset / INDEX_SIZE) as u32,
            index_count,
        };
        self.id_to_geometry_dealloc[id as usize] = GeometryDealloc {
            vertex_block_level,
            vertex_free_tree_index,
            index_block_level,
            index_free_tree_index,
        };
        set_bit_true(self.id_exists.as_mut_slice(), id as usize);
        proof {
            assert forall|k: int| 0 <= k < self.available_ids@.len() implies (
            #[trigger] self.available_ids@[k]) < MAX_ID_COUNT && !bit_at(
                self.id_exists@,
                self.available_ids@[k] as int,
            ) by {
                assert(self.available_ids@[k] == old(self).available_ids@[k]);
            }
            assert forall|other: int|
                #![trigger bit_at(self.id_exists@, other)]
                self.exists_id(other) implies self.record_ok(other) by {
                if other != id {
                    assert(old(self).exists_id(other));
                    assert(old(self).record_ok(other));
                }
            }
            assert forall|a: int, b: int|
                #![trigger bit_at(self.id_exists@, a), bit_at(self.id_exists@, b)]
                self.exists_id(a) && self.exists_id(b) && a != b implies {
                &&& self.id_to_geometry_dealloc@[a].vertex_free_tree_index
                    != self.id_to_geometry_dealloc@[b].vertex_free_tree_index
                &&& self.id_to_geometry_dealloc@[a].index_free_tree_index
                    != self.id_to_geometry_dealloc@[b].index_free_tree_index
            } by {
                if a != id {
                    assert(old(self).exists_id(a));
                    assert(old(self).record_ok(a));
                }
                if b != id {
                    assert(old(self).exists_id(b));
                    assert(old(self).record_ok(b));
                }
            }
        }
        Some(GeometryUpload { id, vertex_ptr, index_ptr, vertex_offset, index_offset })
    }

    /// Destroys geometry `id`: releases its two staging blocks and makes
    /// its name available again.
    pub fn destroy_geometry(&mut self, id: GeometryId)
        requires
            old(self).wf(),
            old(self).exists_id(id as int),
        ensures
            final(self).wf(),
            !final(self).exists_id(id as int),
            final(self).geometry_count == old(self).geometry_count - 1,
            old(self).vertex_allocator.after_deallocate(
                old(self).id_to_geometry_dealloc@[id as int].vertex_free_tree_index as nat,
                &final(self).vertex_allocator,
            ),
            old(self).index_allocator.after_deallocate(
                old(self).id_to_geometry_dealloc@[id as int].index_free_tree_index as nat,
                &final(self).index_allocator,
            ),
            final(self).available_ids@ == old(self).available_ids@.push(id),
            final(self).id_to_geometry_dealloc@[id as int] == (GeometryDealloc {
                vertex_block_level: BlockLevel::MAX,
                vertex_free_tree_index: FreeTreeIndex::MAX,
                index_block_level: BlockLevel::MAX,
                index_free_tree_index: FreeTreeIndex::MAX,
            }),
            final(self).id_to_geometry@[id as int] == (Geometry {
                vertex_offset: i32::MIN,
                first_index: 0,
                index_count: 0,
            }),
            forall|other: int|
                0 <= other < MAX_ID_COUNT && other != id ==> final(self).exists_id(other) == old(
                    self,
                ).exists_id(other) && final(self).id_to_geometry@[other] == old(
                    self,
                ).id_to_geometry@[other],
    {
        let geometry: Geometry = self.id_to_geometry[id as usize];
        let dealloc: GeometryDealloc = self.id_to_geometry_dealloc[id as usize];
        proof {
            assert(old(self).record_ok(id as int));
            lemma_with_bit(self.id_exists@, id as int, false);
            crate::buddy_tree::index::lemma_level_in_tree(
                dealloc.index_free_tree_index as nat,
                self.index_allocator.levels(),
            );
            crate::buddy_tree::index::lemma_level_in_tree(
                dealloc.vertex_free_tree_index as nat,
                self.vertex_allocator.levels(),
            );
            lemma_block_bytes(
                self.vertex_allocator.heap_size as int,
                self.vertex_allocator.levels(),
                level_of(dealloc.vertex_free_tree_index as nat),
            );
            lemma_block_bytes(
                self.index_allocator.heap_size as int,
                self.index_allocator.levels(),
                level_of(dealloc.index_free_tree_index as nat),
            );
            lemma_address(
                self.vertex_allocator.heap_start as int,
                self.vertex_allocator.heap_size as int,
                self.vertex_allocator.levels(),
                dealloc.vertex_free_tree_index as nat,
            );
            lemma_address(
                self.index_allocator.heap_start as int,
                self.index_allocator.heap_size as int,
                self.index_allocator.levels(),
                dealloc.index_free_tree_index as nat,
            );
            if self.available_ids@.len() >= MAX_ID_COUNT {
                assert(false) by {
                    assert(self.geometry_count == 0);
                    lemma_all_available(self.available_ids@, id);
                }
            }
        }
        self.geometry_count -= 1;
        self.vertex_allocator.deallocate(
            geometry.vertex_offset as usize + self.vertex_allocator.heap_start,
            dealloc.vertex_block_level,
            dealloc.vertex_free_tree_index,
        );
        self.index_allocator.deallocate(
            geometry.first_index as usize * INDEX_SIZE + self.index_allocator.heap_start,
            dealloc.index_block_level,
            dealloc.index_free_tree_index,
        );
        self.id_to_geometry[id as usize] = Geometry::default();
        self.id_to_geometry_dealloc[id as usize] = GeometryDealloc::default();
        set_bit_false(self.id_exists.as_mut_slice(), id as usize);
        self.available_ids.push(id);
        proof {
            assert forall|other: int| other != id implies self.exists_id(other) == old(
                self,
            ).exists_id(other) by {}
            assert forall|k: int| 0 <= k < self.available_ids@.len() implies (
            #[trigger] self.available_ids@[k]) < MAX_ID_COUNT && !bit_at(
                self.id_exists@,
                self.available_ids@[k] as int,
            ) by {
                if k < old(self).available_ids@.len() {
                    assert(self.available_ids@[k] == old(self).available_ids@[k]);
                }
            }
            assert forall|a: int, b: int|
                0 <= a < self.available_ids@.len() && 0 <= b < self.available_ids@.len() && a
                    != b implies self.available_ids@[a] != self.available_ids@[b] by {
                if a < old(self).available_ids@.len() {
                    assert(self.available_ids@[a] == old(self).available_ids@[a]);
                }
                if b < old(self).available_ids@.len() {
                    assert(self.available_ids@[b] == old(self).available_ids@[b]);
                }
            }
            assert forall|other: int|
                #![trigger bit_at(self.id_exists@, other)]
                self.exists_id(other) implies self.record_ok(other) by {
                assert(old(self).exists_id(other));
                assert(old(self).record_ok(other));
            }
            assert forall|a: int, b: int|
                #![trigger bit_at(self.id_exists@, a), bit_at(self.id_exists@, b)]
                self.exists_id(a) && self.exists_id(b) && a != b implies {
                &&& self.id_to_geometry_dealloc@[a].vertex_free_tree_index
                    != self.id_to_geometry_dealloc@[b].vertex_free_tree_index
                &&& self.id_to_geometry_dealloc@[a].index_free_tree_index
                    != self.id_to_geometry_dealloc@[b].index_free_tree_index
            } by {
                assert(old(self).exists_id(a));
                assert(old(self).exists_id(b));
            }
        }
    }

    /// A registry whose allocators changed, but kept the blocks of the
    /// existing geometries live, and whose records did not change, is
    /// still sound if its allocators are.
    proof fn lemma_records_kept(&self, before: Self)
        requires
            before.wf(),
            self.vertex_allocator.wf(),
            self.index_allocator.wf(),
            self.vertex_allocator.heap_start == before.vertex_allocator.heap_start,
            self.vertex_allocator.heap_size == before.vertex_allocator.heap_size,
            self.vertex_allocator.levels() == before.vertex_allocator.levels(),
            self.index_allocator.heap_start == before.index_allocator.heap_start,
            self.index_allocator.heap_size == before.index_allocator.heap_size,
            self.index_allocator.levels() == before.index_allocator.levels(),
            self.id_to_geometry == before.id_to_geometry,
            self.id_to_geometry_dealloc == before.id_to_geometry_dealloc,
            self.id_exists == before.id_exists,
            self.available_ids == before.available_ids,
            self.geometry_count == before.geometry_count,
            forall|i: nat|
                before.vertex_allocator.is_live(i) ==> #[trigger] self.vertex_allocator.is_live(i),
            forall|i: nat|
                before.index_allocator.is_live(i) ==> #[trigger] self.index_allocator.is_live(i),
        ensures
            self.wf(),
    {
        assert forall|id: int|
            #![trigger bit_at(self.id_exists@, id)]
            self.exists_id(id) implies self.record_ok(id) by {
            assert(before.exists_id(id));
            assert(before.record_ok(id));
        }
    }

    /// Whether geometry `id` exists.
    pub fn has_geometry(&self, id: GeometryId) -> (r: bool)
        requires
            self.wf(),
        ensures
            r == self.exists_id(id as int),
    {
        (id as usize) < MAX_ID_COUNT && get_bit(self.id_exists.as_slice(), id as usize)
    }
}

/// A list of different names below `MAX_ID_COUNT` that has `MAX_ID_COUNT`
/// entries holds every name.
proof fn lemma_all_available(ids: Seq<GeometryId>, id: GeometryId)
    requires
        ids.no_duplicates(),
        ids.len() >= MAX_ID_COUNT,
        forall|k: int| 0 <= k < ids.len() ==> (#[trigger] ids[k]) < MAX_ID_COUNT,
        id < MAX_ID_COUNT,
    ensures
        ids.contains(id),
{
    let values = ids.to_set();
    ids.unique_seq_to_set();
    let all = Set::new(|v: GeometryId| v < MAX_ID_COUNT);
    assert(all =~= Set::new(|v: GeometryId| 0 <= v < 100u16));
    lemma_names_finite(100);
    assert(values.subset_of(all)) by {
        assert forall|v: GeometryId| values.contains(v) implies all.contains(v) by {
            let k = choose|k: int| 0 <= k < ids.len() && ids[k] == v;
        }
    }
    vstd::set_lib::lemma_len_subset(values, all);
    if !values.contains(id) {
        let fewer = all.remove(id);
        assert(values.subset_of(fewer));
        vstd::set_lib::lemma_len_subset(values, fewer);
    }
}

/// There are `n` names below `n`.
proof fn lemma_names_finite(n: GeometryId)
    ensures
        Set::new(|v: GeometryId| v < n).finite(),
        Set::new(|v: GeometryId| v < n).len() == n,
    decreases n,
{
    let s = Set::new(|v: GeometryId| v < n);
    if n == 0 {
        assert(s =~= Set::<GeometryId>::empty());
    } else {
        let m = (n - 1) as GeometryId;
        lemma_names_finite(m);
        assert(s =~= Set::new(|v: GeometryId| v < m).insert(m));
    }
}

/// An offset that is a whole number of smallest blocks is a multiple of
/// four: a smallest block holds three machine words, and its size is a
/// power of two.
proof fn lemma_cell_multiple_of_four(heap_size: int, levels: nat, offset: int)
    requires
        crate::memory::is_power_of_two(heap_size),
        levels >= 1,
        cell_bytes(heap_size, levels) >= crate::allocator::node_bytes(),
        offset % cell_bytes(heap_size, levels) == 0,
    ensures
        offset % 4 == 0,
{
    let cb = cell_bytes(heap_size, levels);
    lemma_block_bytes(heap_size, levels, (levels - 1) as nat);
    let k = choose|k: nat| cb == #[trigger] vstd::arithmetic::power2::pow2(k);
    vstd::arithmetic::power2::lemma2_to64();
    if k < 2 {
        assert(cb <= 2);
    } else {
        vstd::arithmetic::power2::lemma_pow2_adds(2, (k - 2) as nat);
        let q = vstd::arithmetic::power2::pow2((k - 2) as nat) as int;
        crate::buddy_tree::region::lemma_multiple(offset, cb);
        let m = offset / cb;
        assert(offset == 4 * (q * m)) by (nonlinear_arith)
            requires
                offset == cb * m,
                cb == 4 * q,
        ;
        vstd::arithmetic::div_mod::lemma_mod_multiples_basic(q * m, 4);
        assert((q * m) * 4 == 4 * (q * m)) by (nonlinear_arith);
    }
}

} // verus!
