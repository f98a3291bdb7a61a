use buddy_memory::allocator::Allocator;
use buddy_memory::geometry::{Geometry, GeometryDealloc, GeometryRegistry, MAX_ID_COUNT};

fn registry() -> GeometryRegistry {
    let vertices = Allocator::new(0x10000, 0x10000, 8);
    let indices = Allocator::new(0x20000, 0x10000, 8);
    GeometryRegistry::new(vertices, indices)
}

#[test]
fn geometry_defaults_name_nothing() {
    assert_eq!(Geometry::default(), Geometry { vertex_offset: i32::MIN, first_index: 0, index_count: 0 });
    assert_eq!(
        GeometryDealloc::default(),
        GeometryDealloc {
            vertex_block_level: u8::MAX,
            vertex_free_tree_index: u16::MAX,
            index_block_level: u8::MAX,
            index_free_tree_index: u16::MAX,
        }
    );
}

#[test]
fn geometry_create_records_offsets() {
    let mut registry = registry();
    let first = registry.create_geometry(0x200, 6).unwrap();
    assert_eq!(first.id, 99);
    assert_eq!((first.vertex_ptr, first.index_ptr), (0x10000, 0x20000));
    assert_eq!((first.vertex_offset, first.index_offset), (0, 0));
    let second = registry.create_geometry(0x300, 3).unwrap();
    assert_eq!(second.id, 98);
    assert_eq!((second.vertex_offset, second.index_offset), (0x400, 0x200));
    assert_eq!(
        registry.id_to_geometry[98],
        Geometry { vertex_offset: 0x400, first_index: 0x80, index_count: 3 }
    );
    assert_eq!(registry.geometry_count, 2);
    assert!(registry.has_geometry(99));
    assert!(registry.has_geometry(98));
    assert!(!registry.has_geometry(97));
    assert!(!registry.has_geometry(1000));
}

#[test]
fn geometry_destroy_gives_name_and_blocks_back() {
    let mut registry = registry();
    let first = registry.create_geometry(0x200, 6).unwrap();
    let second = registry.create_geometry(0x200, 6).unwrap();
    registry.destroy_geometry(first.id);
    assert!(!registry.has_geometry(first.id));
    assert!(registry.has_geometry(second.id));
    assert_eq!(registry.geometry_count, 1);
    assert_eq!(registry.id_to_geometry[first.id as usize], Geometry::default());
    let again = registry.create_geometry(0x200, 6).unwrap();
    assert_eq!(again.id, first.id);
    assert_eq!(again.vertex_ptr, first.vertex_ptr);
    assert_eq!(again.index_ptr, first.index_ptr);
}

#[test]
fn geometry_create_fails_without_names_or_memory() {
    let mut registry = registry();
    assert!(registry.create_geometry(0x10001, 1).is_none());
    assert!(registry.create_geometry(1, 0x4001).is_none());
    assert_eq!(registry.geometry_count, 0);
    // the vertex block of the failed attempt was given back
    assert_eq!(registry.create_geometry(0x10000, 1).unwrap().vertex_ptr, 0x10000);
    let mut full = self::registry();
    for _ in 0..MAX_ID_COUNT {
        assert!(full.create_geometry(1, 1).is_some());
    }
    assert!(full.create_geometry(1, 1).is_none());
    assert_eq!(full.geometry_count, MAX_ID_COUNT);
}
