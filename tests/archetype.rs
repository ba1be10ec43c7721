use ecs::archetype::{Archetype, ArchetypeId, ArchetypeManager};
use ecs::entity::{EcsError, Entity};
use ecs::storage::ArchetypeStorage;

#[test]
fn test_archetype_id_equality() {
    assert_eq!(ArchetypeId { index: 1 }, ArchetypeId { index: 1 });
    assert_ne!(ArchetypeId { index: 1 }, ArchetypeId { index: 2 });
}

#[test]
fn default_archetype_is_index_zero() {
    assert_eq!(ArchetypeId::default_archetype(), ArchetypeId { index: 0 });
}

#[test]
fn register_assigns_increasing_ids_and_find_ignores_order() {
    let mut m = ArchetypeManager::with_capacity(4);
    let a = Archetype { component_types: vec![7, 8], component_sizes: vec![2, 3] };
    let b = Archetype { component_types: vec![9], component_sizes: vec![1] };
    assert_eq!(m.register_archetype(a), Ok(ArchetypeId { index: 1 }));
    assert_eq!(m.register_archetype(b), Ok(ArchetypeId { index: 2 }));
    assert_eq!(m.find_archetype_id(&vec![8, 7]), Some(ArchetypeId { index: 1 }));
    assert_eq!(m.find_archetype_id(&vec![9]), Some(ArchetypeId { index: 2 }));
    assert_eq!(m.find_archetype_id(&vec![7]), None);
    assert_eq!(m.find_archetype_id(&vec![7, 8, 9]), None);
    assert!(m.find_archetype(vec![9, 7]).is_none());
    assert_eq!(m.find_archetype(vec![8, 7]).unwrap().component_sizes, vec![2, 3]);
    assert_eq!(m.storage[1].data.len(), 4 * 5);
}

#[test]
fn register_refuses_oversized_rows() {
    let mut m = ArchetypeManager::with_capacity(2);
    let a = Archetype { component_types: vec![1], component_sizes: vec![usize::MAX] };
    assert_eq!(m.register_archetype(a), Err(EcsError::CapacityExhausted));
    let b = Archetype { component_types: vec![1, 2], component_sizes: vec![usize::MAX, 1] };
    assert_eq!(m.register_archetype(b), Err(EcsError::CapacityExhausted));
    assert_eq!(m.archetypes.len(), 1);
}

#[test]
fn entity_archetype_record_follows_version() {
    let mut m = ArchetypeManager::default();
    let e = Entity { id: 3, version: 1 };
    assert_eq!(m.get_archetype_id(e), ArchetypeId { index: 0 });
    m.set_entity_archetype(e, ArchetypeId { index: 0 });
    let a = Archetype { component_types: vec![5], component_sizes: vec![4] };
    let id = m.register_archetype(a).unwrap();
    m.set_entity_archetype(e, id);
    assert_eq!(m.get_archetype_id(e), id);
    assert_eq!(m.get_archetype_id(Entity { id: 3, version: 2 }), ArchetypeId { index: 0 });
    let newer = Entity { id: 3, version: 2 };
    m.set_entity_archetype(newer, ArchetypeId { index: 0 });
    assert_eq!(m.get_archetype_id(e), id);
    assert_eq!(m.get_archetype_for_entity(e).unwrap().component_types, vec![5]);
    assert!(m.get_archetype(ArchetypeId { index: 9 }).is_none());
    m.set_entity_archetype(newer, id);
    m.clear_entity_archetype(e);
    assert_eq!(m.get_archetype_id(e), ArchetypeId { index: 0 });
    assert_eq!(m.get_archetype_id(newer), id);
}

#[test]
fn row_size_sums_component_sizes() {
    let a = Archetype { component_types: vec![1, 2, 3], component_sizes: vec![4, 8, 2] };
    assert_eq!(a.row_size(), Some(14));
    assert_eq!(a.position_of(3), Some(2));
    assert_eq!(a.position_of(4), None);
    assert!(a.has_same_types(&vec![3, 1, 2]));
}

#[test]
fn storage_rows_are_handed_out_from_zero_and_reused_last_freed_first() {
    let mut s = ArchetypeStorage::create(ArchetypeId { index: 1 }, 2, 3);
    let e1 = Entity { id: 1, version: 1 };
    let e2 = Entity { id: 2, version: 1 };
    let e3 = Entity { id: 3, version: 1 };
    let e4 = Entity { id: 4, version: 1 };
    assert_eq!(s.alloc_row(e1), Ok(0));
    assert_eq!(s.alloc_row(e2), Ok(1));
    assert_eq!(s.alloc_row(e3), Ok(2));
    assert_eq!(s.alloc_row(e4), Err(EcsError::CapacityExhausted));
    assert_eq!(s.free_row(e2), Some(1));
    assert_eq!(s.free_row(e2), None);
    assert_eq!(s.alloc_row(e4), Ok(1));
    assert_eq!(s.find_row(e4), Some(1));
    assert_eq!(s.data, vec![0; 6]);
}

#[test]
fn component_offset_is_row_major() {
    let a = Archetype { component_types: vec![1, 2], component_sizes: vec![3, 5] };
    let mut s = ArchetypeStorage::create(ArchetypeId { index: 1 }, 8, 4);
    let e1 = Entity { id: 1, version: 1 };
    let e2 = Entity { id: 2, version: 1 };
    s.alloc_row(e1).unwrap();
    s.alloc_row(e2).unwrap();
    assert_eq!(ecs::accessor::component_offset(e1, 0, &a, &s), Ok(0));
    assert_eq!(ecs::accessor::component_offset(e1, 1, &a, &s), Ok(3));
    assert_eq!(ecs::accessor::component_offset(e2, 1, &a, &s), Ok(8 + 3));
    let e3 = Entity { id: 3, version: 1 };
    assert_eq!(ecs::accessor::component_offset(e3, 0, &a, &s), Err(EcsError::MissingComponent));
    s.write_bytes(11, &vec![1, 2, 3, 4, 5]);
    assert_eq!(s.read_bytes(11, 5), vec![1, 2, 3, 4, 5]);
    assert_eq!(s.read_bytes(8, 3), vec![0, 0, 0]);
}
