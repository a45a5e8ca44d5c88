use std::collections::HashSet;
use sdec::codec::{CodecLimits, EntityId, SnapshotTick};

// SnapshotTick tests
#[test]
fn snapshot_tick_new() {
    let tick = SnapshotTick::new(100);
    assert_eq!(tick.raw(), 100);
}

#[test]
fn snapshot_tick_zero() {
    let zero = SnapshotTick::new(0);
    assert!(zero.is_zero());

    let nonzero = SnapshotTick::new(1);
    assert!(!nonzero.is_zero());
}

#[test]
fn snapshot_tick_from_u32() {
    let tick: SnapshotTick = 42u32.into();
    assert_eq!(tick.raw(), 42);
}

#[test]
fn snapshot_tick_into_u32() {
    let tick = SnapshotTick::new(99);
    let value: u32 = tick.into();
    assert_eq!(value, 99);
}

#[test]
fn snapshot_tick_ordering() {
    let t1 = SnapshotTick::new(1);
    let t2 = SnapshotTick::new(2);
    let t3 = SnapshotTick::new(2);

    assert!(t1 < t2);
    assert!(t2 > t1);
    assert!(t2 == t3);
    assert!(t2 >= t3);
    assert!(t2 <= t3);
}

#[test]
fn snapshot_tick_hash() {
    let mut set = HashSet::new();
    set.insert(SnapshotTick::new(1));
    set.insert(SnapshotTick::new(2));
    set.insert(SnapshotTick::new(1)); // duplicate

    assert_eq!(set.len(), 2);
    assert!(set.contains(&SnapshotTick::new(1)));
    assert!(set.contains(&SnapshotTick::new(2)));
}

#[test]
fn snapshot_tick_default() {
    let tick = SnapshotTick::default();
    assert_eq!(tick.raw(), 0);
    assert!(tick.is_zero());
}

#[test]
fn snapshot_tick_equality() {
    let t1 = SnapshotTick::new(100);
    let t2 = SnapshotTick::new(100);
    let t3 = SnapshotTick::new(101);

    assert_eq!(t1, t2);
    assert_ne!(t1, t3);
}

#[test]
fn snapshot_tick_clone_copy() {
    let tick = SnapshotTick::new(42);
    let copied = tick; // Copy
    assert_eq!(tick, copied);
}

#[test]
fn snapshot_tick_debug() {
    let tick = SnapshotTick::new(123);
    let debug = format!("{tick:?}");
    assert!(debug.contains("123"));
}


// EntityId tests
#[test]
fn entity_id_new() {
    let id = EntityId::new(42);
    assert_eq!(id.raw(), 42);
}

#[test]
fn entity_id_from_u32() {
    let id: EntityId = 123u32.into();
    assert_eq!(id.raw(), 123);
}

#[test]
fn entity_id_into_u32() {
    let id = EntityId::new(99);
    let value: u32 = id.into();
    assert_eq!(value, 99);
}

#[test]
fn entity_id_ordering() {
    let id1 = EntityId::new(1);
    let id2 = EntityId::new(2);

    assert!(id1 < id2);
    assert!(id2 > id1);
}

#[test]
fn entity_id_hash() {
    let mut set = HashSet::new();
    set.insert(EntityId::new(1));
    set.insert(EntityId::new(2));

    assert!(set.contains(&EntityId::new(1)));
    assert!(!set.contains(&EntityId::new(3)));
}

#[test]
fn entity_id_default() {
    let id = EntityId::default();
    assert_eq!(id.raw(), 0);
}

#[test]
fn entity_id_equality() {
    let id1 = EntityId::new(42);
    let id2 = EntityId::new(42);
    let id3 = EntityId::new(43);

    assert_eq!(id1, id2);
    assert_ne!(id1, id3);
}

#[test]
fn entity_id_clone_copy() {
    let id = EntityId::new(42);
    let copied = id; // Copy
    assert_eq!(id, copied);
}

#[test]
fn default_limits_are_reasonable() {
    let limits = CodecLimits::default();
    assert!(limits.max_entities_create >= 128);
    assert!(limits.max_section_bytes >= 1024);
}

#[test]
fn limits_testing_limits_smaller() {
    let test_limits = CodecLimits::for_testing();
    let default_limits = CodecLimits::default();
    assert!(test_limits.max_entities_create < default_limits.max_entities_create);
    assert!(test_limits.max_section_bytes < default_limits.max_section_bytes);
}

#[test]
fn limits_unlimited_limits() {
    let limits = CodecLimits::unlimited();
    assert_eq!(limits.max_entities_create, usize::MAX);
    assert_eq!(limits.max_section_bytes, usize::MAX);
}

#[test]
fn snapshot_tick_const() {
    let tick: SnapshotTick = SnapshotTick::new(42);
    assert_eq!(tick.raw(), 42);
}

#[test]
fn entity_id_const() {
    let id: EntityId = EntityId::new(999);
    assert_eq!(id.raw(), 999);
}
