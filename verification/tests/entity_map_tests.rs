use sdec::codec::EntityId;
use sdec::sdec_bevy::EntityMap;

#[test]
fn entity_map_allocates_from_one_and_reuses() {
    let mut map = EntityMap::new();
    let a = map.entity_id(100);
    let b = map.entity_id(200);
    assert_eq!(a.raw(), 1);
    assert_eq!(b.raw(), 2);
    assert_eq!(map.entity_id(100).raw(), 1);
    assert_eq!(map.entity_id_known(200), Some(EntityId::new(2)));
    assert_eq!(map.entity_id_known(300), None);
    assert_eq!(map.entity(EntityId::new(1)), Some(100));
    assert_eq!(map.entity(EntityId::new(9)), None);
}

#[test]
fn entity_map_register_moves_allocation_past_id() {
    let mut map = EntityMap::new();
    map.register(EntityId::new(10), 7);
    assert_eq!(map.entity(EntityId::new(10)), Some(7));
    assert_eq!(map.entity_id_known(7), Some(EntityId::new(10)));
    assert_eq!(map.entity_id(8).raw(), 11);
    map.register(EntityId::new(3), 9);
    assert_eq!(map.entity_id(12).raw(), 12);
}

#[test]
fn entity_map_unregister_forgets_both_ways() {
    let mut map = EntityMap::new();
    let id = map.entity_id(42);
    map.unregister(id);
    assert_eq!(map.entity(id), None);
    assert_eq!(map.entity_id_known(42), None);
    map.unregister(EntityId::new(99));
    assert_eq!(map.entity_id(43).raw(), 2);
}
