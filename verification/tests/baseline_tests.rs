use sdec::codec::{BaselineError, BaselineStore, SnapshotTick};

#[test]
fn insert_and_get() {
    let mut store = BaselineStore::new(3);
    store.insert(SnapshotTick::new(1), 10).unwrap();
    store.insert(SnapshotTick::new(2), 20).unwrap();

    assert_eq!(store.get(SnapshotTick::new(1)), Some(&10));
    assert_eq!(store.get(SnapshotTick::new(2)), Some(&20));
    assert_eq!(store.get(SnapshotTick::new(3)), None);
}

#[test]
fn latest_at_or_before() {
    let mut store = BaselineStore::new(3);
    store.insert(SnapshotTick::new(10), 1).unwrap();
    store.insert(SnapshotTick::new(20), 2).unwrap();
    store.insert(SnapshotTick::new(30), 3).unwrap();

    assert_eq!(
        store
            .latest_at_or_before(SnapshotTick::new(25))
            .map(|(t, _)| t),
        Some(SnapshotTick::new(20))
    );
    assert_eq!(
        store
            .latest_at_or_before(SnapshotTick::new(30))
            .map(|(t, _)| t),
        Some(SnapshotTick::new(30))
    );
    assert_eq!(store.latest_at_or_before(SnapshotTick::new(5)), None);
}

#[test]
fn evicts_oldest_when_full() {
    let mut store = BaselineStore::new(2);
    store.insert(SnapshotTick::new(1), 1).unwrap();
    store.insert(SnapshotTick::new(2), 2).unwrap();
    store.insert(SnapshotTick::new(3), 3).unwrap();

    assert_eq!(store.get(SnapshotTick::new(1)), None);
    assert_eq!(store.get(SnapshotTick::new(2)), Some(&2));
    assert_eq!(store.get(SnapshotTick::new(3)), Some(&3));
}

#[test]
fn rejects_out_of_order_ticks() {
    let mut store = BaselineStore::new(2);
    store.insert(SnapshotTick::new(10), 1).unwrap();
    let err = store.insert(SnapshotTick::new(9), 2).unwrap_err();
    assert!(matches!(err, BaselineError::OutOfOrder { .. }));
}

#[test]
fn lookup_after_wraparound() {
    let mut store = BaselineStore::new(3);
    store.insert(SnapshotTick::new(1), 1).unwrap();
    store.insert(SnapshotTick::new(2), 2).unwrap();
    store.insert(SnapshotTick::new(3), 3).unwrap();
    store.insert(SnapshotTick::new(4), 4).unwrap();
    store.insert(SnapshotTick::new(5), 5).unwrap();

    assert_eq!(store.get(SnapshotTick::new(1)), None);
    assert_eq!(store.get(SnapshotTick::new(2)), None);
    assert_eq!(store.get(SnapshotTick::new(3)), Some(&3));
    assert_eq!(store.get(SnapshotTick::new(4)), Some(&4));
    assert_eq!(store.get(SnapshotTick::new(5)), Some(&5));
}

#[test]
fn latest_at_or_before_across_eviction() {
    let mut store = BaselineStore::new(3);
    store.insert(SnapshotTick::new(10), 1).unwrap();
    store.insert(SnapshotTick::new(11), 2).unwrap();
    store.insert(SnapshotTick::new(12), 3).unwrap();
    store.insert(SnapshotTick::new(13), 4).unwrap();

    assert_eq!(store.latest_at_or_before(SnapshotTick::new(10)), None);
    assert_eq!(
        store
            .latest_at_or_before(SnapshotTick::new(11))
            .map(|(t, _)| t),
        Some(SnapshotTick::new(11))
    );
    assert_eq!(
        store
            .latest_at_or_before(SnapshotTick::new(100))
            .map(|(t, _)| t),
        Some(SnapshotTick::new(13))
    );
}

#[test]
fn stress_insert_wraparound() {
    let mut store = BaselineStore::new(3);
    for tick in 1..=50 {
        store.insert(SnapshotTick::new(tick), tick).unwrap();
    }

    assert_eq!(store.len(), 3);
    assert_eq!(store.latest_at_or_before(SnapshotTick::new(1)), None);
    assert_eq!(
        store
            .latest_at_or_before(SnapshotTick::new(48))
            .map(|(t, _)| t),
        Some(SnapshotTick::new(48))
    );
    assert_eq!(
        store
            .latest_at_or_before(SnapshotTick::new(49))
            .map(|(t, _)| t),
        Some(SnapshotTick::new(49))
    );
    assert_eq!(
        store
            .latest_at_or_before(SnapshotTick::new(50))
            .map(|(t, _)| t),
        Some(SnapshotTick::new(50))
    );
    assert_eq!(store.get(SnapshotTick::new(47)), None);
}
