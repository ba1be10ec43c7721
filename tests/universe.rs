use ecs::component::Component;
use ecs::entity::{EcsError, Entity};
use ecs::query::EntityQuery;
use ecs::universe::Universe;
use vstd::seq::Seq;

struct TestComponent {}

impl Component for TestComponent {
    fn tag() -> u64 {
        1
    }

    fn byte_size() -> usize {
        0
    }

    fn encode(&self) -> Seq<u8> {
        unreachable!()
    }

    fn decode(_bytes: Seq<u8>) -> Self {
        unreachable!()
    }

    fn lemma_decode_encode(_v: Self) {}

    fn type_tag() -> u64 {
        Self::tag()
    }

    fn size() -> usize {
        Self::byte_size()
    }

    fn to_bytes(&self) -> Vec<u8> {
        Vec::new()
    }

    fn from_bytes(_bytes: &Vec<u8>) -> Self {
        TestComponent {}
    }
}

struct TestComponent2 {
    value: i32,
}

impl Component for TestComponent2 {
    fn tag() -> u64 {
        2
    }

    fn byte_size() -> usize {
        4
    }

    fn encode(&self) -> Seq<u8> {
        unreachable!()
    }

    fn decode(_bytes: Seq<u8>) -> Self {
        unreachable!()
    }

    fn lemma_decode_encode(_v: Self) {}

    fn type_tag() -> u64 {
        Self::tag()
    }

    fn size() -> usize {
        Self::byte_size()
    }

    fn to_bytes(&self) -> Vec<u8> {
        self.value.to_le_bytes().to_vec()
    }

    fn from_bytes(bytes: &Vec<u8>) -> Self {
        TestComponent2 { value: i32::from_le_bytes([bytes[0], bytes[1], bytes[2], bytes[3]]) }
    }
}

struct Position {
    value: f32,
}

impl Component for Position {
    fn tag() -> u64 {
        3
    }

    fn byte_size() -> usize {
        4
    }

    fn encode(&self) -> Seq<u8> {
        unreachable!()
    }

    fn decode(_bytes: Seq<u8>) -> Self {
        unreachable!()
    }

    fn lemma_decode_encode(_v: Self) {}

    fn type_tag() -> u64 {
        Self::tag()
    }

    fn size() -> usize {
        Self::byte_size()
    }

    fn to_bytes(&self) -> Vec<u8> {
        self.value.to_le_bytes().to_vec()
    }

    fn from_bytes(bytes: &Vec<u8>) -> Self {
        Position { value: f32::from_le_bytes([bytes[0], bytes[1], bytes[2], bytes[3]]) }
    }
}

struct GridPosition {
    pos: i32,
}

impl Component for GridPosition {
    fn tag() -> u64 {
        4
    }

    fn byte_size() -> usize {
        4
    }

    fn encode(&self) -> Seq<u8> {
        unreachable!()
    }

    fn decode(_bytes: Seq<u8>) -> Self {
        unreachable!()
    }

    fn lemma_decode_encode(_v: Self) {}

    fn type_tag() -> u64 {
        Self::tag()
    }

    fn size() -> usize {
        Self::byte_size()
    }

    fn to_bytes(&self) -> Vec<u8> {
        self.pos.to_le_bytes().to_vec()
    }

    fn from_bytes(bytes: &Vec<u8>) -> Self {
        GridPosition { pos: i32::from_le_bytes([bytes[0], bytes[1], bytes[2], bytes[3]]) }
    }
}

#[test]
fn it_works() {}

#[test]
fn create_entity() {
    let entity = Universe::new().create_entity().unwrap();
    assert_eq!(entity.id, 1);
    assert_eq!(entity.version, 1);
}

#[test]
fn create_destroy_reuses_index_increments_version() {
    let mut u = Universe::new();
    let entity1 = u.create_entity().unwrap();
    assert_eq!(u.is_valid(entity1), true);

    u.destroy_entity(entity1).unwrap();
    let entity2 = u.create_entity().unwrap();
    assert_eq!(entity2.id, entity1.id);
    assert_eq!(entity2.version, entity1.version + 1)
}

#[test]
fn add_component_to_invalid_entity_is_rejected() {
    let mut u = Universe::new();
    let r = u.add_component::<TestComponent>(Entity { id: 0, version: 0 });
    assert_eq!(r, Err(EcsError::InvalidHandle));
}

#[test]
fn add_component_has_component() {
    let mut u = Universe::new();
    let entity = u.create_entity().unwrap();
    assert_eq!(false, u.has_component::<TestComponent>(entity).unwrap());
    u.add_component_data(entity, TestComponent {}).unwrap();
    assert_eq!(true, u.has_component::<TestComponent>(entity).unwrap());
}

#[test]
fn add_component_get_component() {
    let mut u = Universe::new();
    let entity = u.create_entity().unwrap();
    u.add_component_data(entity, TestComponent2 { value: 1337 }).unwrap();
    assert_eq!(1337, u.get_component::<TestComponent2>(entity).unwrap().value);
}

#[test]
fn test_add_get_component() {
    let mut uni = Universe::new();
    let entity = uni.create_entity().unwrap();
    let position = Position { value: 1337f32 };
    uni.add_component_data(entity, position).unwrap();
    assert_eq!(uni.get_component::<Position>(entity).unwrap().value, 1337.0);
}

#[test]
fn test_query() {
    let mut u = Universe::new();
    let entity = u.create_entity().unwrap();
    u.add_component_data(entity, GridPosition { pos: 1337 }).unwrap();

    let query = EntityQuery { all: vec![GridPosition::type_tag()], none: vec![], any: vec![] };
    let data = u.get_entities(query);
    assert_eq!(data.num_entities, 1);
}

#[test]
fn query_none_and_any_filter_archetypes() {
    let mut u = Universe::new();
    let a = u.create_entity().unwrap();
    let b = u.create_entity().unwrap();
    let c = u.create_entity().unwrap();
    u.add_component_data(a, GridPosition { pos: 1 }).unwrap();
    u.add_component_data(b, GridPosition { pos: 2 }).unwrap();
    u.add_component_data(c, TestComponent2 { value: 3 }).unwrap();
    let none = EntityQuery { all: vec![], none: vec![GridPosition::type_tag()], any: vec![] };
    assert_eq!(u.get_entities(none).num_entities, 1);
    let any = EntityQuery { all: vec![], none: vec![], any: vec![GridPosition::type_tag(), TestComponent2::type_tag()] };
    assert_eq!(u.get_entities(any).num_entities, 3);
    let missing = EntityQuery { all: vec![Position::type_tag()], none: vec![], any: vec![] };
    assert_eq!(u.get_entities(missing).num_entities, 0);
}

#[test]
fn destroyed_handle_is_invalid_and_new_one_valid() {
    let mut u = Universe::new();
    let e1 = u.create_entity().unwrap();
    assert_eq!((e1.id, e1.version), (1, 1));
    u.destroy_entity(e1).unwrap();
    let e2 = u.create_entity().unwrap();
    assert_eq!((e2.id, e2.version), (1, 2));
    assert_eq!(u.is_valid(e1), false);
    assert_eq!(u.is_valid(e2), true);
}

#[test]
fn fresh_entity_valid_then_invalid_after_destroy() {
    let mut u = Universe::new();
    let e = u.create_entity().unwrap();
    assert!(u.is_valid(e));
    u.destroy_entity(e).unwrap();
    assert!(!u.is_valid(e));
    assert_eq!(u.destroy_entity(e), Err(EcsError::InvalidHandle));
}

#[test]
fn handle_at_recorded_version_is_valid() {
    let u = Universe::new();
    assert!(u.is_valid(Entity { id: 5, version: 1 }));
    assert!(!u.is_valid(Entity { id: 5, version: 2 }));
    assert!(!u.is_valid(Entity { id: 0, version: 0 }));
    assert!(!u.is_valid(Entity { id: 100000, version: 0 }));
}

#[test]
fn destroying_a_handle_of_a_free_id_keeps_the_issue_order() {
    let mut u = Universe::new();
    u.destroy_entity(Entity { id: 5, version: 1 }).unwrap();
    assert!(!u.is_valid(Entity { id: 5, version: 1 }));
    assert!(u.is_valid(Entity { id: 5, version: 2 }));
    assert_eq!(u.create_entity(), Ok(Entity { id: 1, version: 1 }));
}

struct Wide {
    value: i64,
}

impl Component for Wide {
    fn tag() -> u64 {
        2
    }

    fn byte_size() -> usize {
        8
    }

    fn encode(&self) -> Seq<u8> {
        unreachable!()
    }

    fn decode(_bytes: Seq<u8>) -> Self {
        unreachable!()
    }

    fn lemma_decode_encode(_v: Self) {}

    fn type_tag() -> u64 {
        Self::tag()
    }

    fn size() -> usize {
        Self::byte_size()
    }

    fn to_bytes(&self) -> Vec<u8> {
        self.value.to_le_bytes().to_vec()
    }

    fn from_bytes(bytes: &Vec<u8>) -> Self {
        let mut b = [0u8; 8];
        b.copy_from_slice(&bytes[0..8]);
        Wide { value: i64::from_le_bytes(b) }
    }
}

#[test]
fn reading_with_a_type_of_another_size_is_type_mismatch() {
    let mut u = Universe::new();
    let e = u.create_entity().unwrap();
    u.add_component_data(e, TestComponent2 { value: 7 }).unwrap();
    assert!(matches!(u.get_component::<Wide>(e), Err(EcsError::TypeMismatch)));
    assert_eq!(u.set_component(e, Wide { value: 1 }), Err(EcsError::TypeMismatch));
    assert_eq!(u.get_component::<TestComponent2>(e).unwrap().value, 7);
}

#[test]
fn entity_without_components_is_in_default_archetype() {
    let mut u = Universe::new();
    let e = u.create_entity().unwrap();
    assert_eq!(u.archetype_manager.get_archetype_id(e).index, 0);
    assert_eq!(u.has_component_by_tag(e, 2), Ok(false));
}

#[test]
fn same_single_type_shares_archetype() {
    let mut u = Universe::new();
    let a = u.create_entity().unwrap();
    let b = u.create_entity().unwrap();
    let c = u.create_entity().unwrap();
    u.add_component::<TestComponent2>(a).unwrap();
    u.add_component::<Position>(c).unwrap();
    u.add_component::<TestComponent2>(b).unwrap();
    let ia = u.archetype_manager.get_archetype_id(a);
    let ib = u.archetype_manager.get_archetype_id(b);
    let ic = u.archetype_manager.get_archetype_id(c);
    assert_eq!(ia, ib);
    assert_eq!(ia.index, 1);
    assert_eq!(ic.index, 2);
}

#[test]
fn bytes_round_trip_and_neighbours_kept() {
    let mut u = Universe::new();
    let a = u.create_entity().unwrap();
    let b = u.create_entity().unwrap();
    u.add_component_by_tag(a, 9, 3).unwrap();
    u.add_component_by_tag(b, 9, 3).unwrap();
    assert_eq!(u.get_component_bytes(a, 9), Ok(vec![0, 0, 0]));
    u.set_component_bytes(a, 9, &vec![1, 2, 3]).unwrap();
    u.set_component_bytes(b, 9, &vec![7, 8, 9]).unwrap();
    assert_eq!(u.get_component_bytes(a, 9), Ok(vec![1, 2, 3]));
    assert_eq!(u.get_component_bytes(b, 9), Ok(vec![7, 8, 9]));
}

#[test]
fn wrong_length_is_type_mismatch() {
    let mut u = Universe::new();
    let e = u.create_entity().unwrap();
    u.add_component_by_tag(e, 9, 3).unwrap();
    assert_eq!(u.set_component_bytes(e, 9, &vec![1, 2]), Err(EcsError::TypeMismatch));
    assert_eq!(u.get_component_bytes(e, 9), Ok(vec![0, 0, 0]));
}

#[test]
fn absent_type_is_missing_component() {
    let mut u = Universe::new();
    let e = u.create_entity().unwrap();
    assert_eq!(u.get_component_bytes(e, 9), Err(EcsError::MissingComponent));
    u.add_component_by_tag(e, 9, 3).unwrap();
    assert_eq!(u.get_component_bytes(e, 8), Err(EcsError::MissingComponent));
    assert_eq!(u.set_component_bytes(e, 8, &vec![1]), Err(EcsError::MissingComponent));
    assert!(u.get_component::<TestComponent2>(e).is_err());
}

#[test]
fn second_type_reports_migration_unsupported() {
    let mut u = Universe::new();
    let e = u.create_entity().unwrap();
    u.add_component::<TestComponent2>(e).unwrap();
    assert_eq!(u.add_component::<TestComponent2>(e), Ok(()));
    assert_eq!(u.add_component::<Position>(e), Err(EcsError::MigrationUnsupported));
}

#[test]
fn stale_handle_is_rejected_everywhere() {
    let mut u = Universe::new();
    let e = u.create_entity().unwrap();
    u.add_component_data(e, TestComponent2 { value: 5 }).unwrap();
    u.destroy_entity(e).unwrap();
    assert_eq!(u.has_component::<TestComponent2>(e), Err(EcsError::InvalidHandle));
    assert_eq!(u.get_component_bytes(e, 2), Err(EcsError::InvalidHandle));
    assert_eq!(u.set_component_bytes(e, 2, &vec![0, 0, 0, 0]), Err(EcsError::InvalidHandle));
    assert_eq!(u.add_component::<TestComponent2>(e), Err(EcsError::InvalidHandle));
}

#[test]
fn entity_pool_exhausts_at_capacity() {
    let mut u = Universe::with_capacity(2, 10);
    assert!(u.create_entity().is_ok());
    assert!(u.create_entity().is_ok());
    assert_eq!(u.create_entity(), Err(EcsError::CapacityExhausted));
}

#[test]
fn archetype_rows_exhaust_at_capacity_without_corruption() {
    let mut u = Universe::with_capacity(10, 2);
    let a = u.create_entity().unwrap();
    let b = u.create_entity().unwrap();
    let c = u.create_entity().unwrap();
    u.add_component_data(a, TestComponent2 { value: 11 }).unwrap();
    u.add_component_data(b, TestComponent2 { value: 22 }).unwrap();
    assert_eq!(u.add_component_data(c, TestComponent2 { value: 33 }), Err(EcsError::CapacityExhausted));
    assert_eq!(u.has_component::<TestComponent2>(c), Ok(false));
    assert_eq!(u.get_component::<TestComponent2>(a).unwrap().value, 11);
    assert_eq!(u.get_component::<TestComponent2>(b).unwrap().value, 22);
}

#[test]
fn destroy_frees_the_row_for_reuse() {
    let mut u = Universe::with_capacity(10, 1);
    let a = u.create_entity().unwrap();
    let b = u.create_entity().unwrap();
    u.add_component_data(a, TestComponent2 { value: 1 }).unwrap();
    assert_eq!(u.add_component::<TestComponent2>(b), Err(EcsError::CapacityExhausted));
    u.destroy_entity(a).unwrap();
    u.add_component_data(b, TestComponent2 { value: 2 }).unwrap();
    assert_eq!(u.get_component::<TestComponent2>(b).unwrap().value, 2);
}

#[test]
fn zero_row_capacity_refuses_components() {
    let mut u = Universe::with_capacity(10, 0);
    let a = u.create_entity().unwrap();
    assert_eq!(u.add_component::<TestComponent2>(a), Err(EcsError::CapacityExhausted));
}

#[test]
fn handle_of_an_unissued_id_cannot_take_components() {
    let mut u = Universe::new();
    let forged = Entity { id: 1, version: 1 };
    assert!(u.is_valid(forged));
    assert_eq!(u.add_component::<TestComponent2>(forged), Err(EcsError::InvalidHandle));
    let e = u.create_entity().unwrap();
    assert_eq!(e, forged);
    assert_eq!(u.has_component::<TestComponent2>(e), Ok(false));
    assert_eq!(u.archetype_manager.get_archetype_id(e).index, 0);
}
