//! Allocators over a fixed region of memory, verified with Verus: a binary
//! buddy allocator in two forms, a bump allocator and a first-fit free-list
//! allocator behind one `Allocator` trait, a growable array that lives in a
//! region of such an allocator, and the bit-vector and alignment helpers
//! they share. The allocators deal in addresses; what lies at an address is
//! the business of the caller. Beside them stand the decisions of a renderer
//! that are made on plain values: the registry of geometries that live in
//! buddy blocks, the layout of vertex attributes, the choice of queue
//! families, memory types, formats and swapchain settings, and the state of
//! the keys.

pub mod allocator;
pub mod buddy_tree;
pub mod data_structures;
pub mod geometry;
pub mod input;
pub mod memory;
pub mod renderer;
pub mod utils;
