use sdec::codec::{CodecLimits, CodecResult, EntityId, SnapshotTick, WireLimits};

#[test]
fn lib_public_api_exports() {
    // Verify all expected items are exported
    let _ = SnapshotTick::new(0);
    let _ = EntityId::new(0);
    let _ = WireLimits::default();
    let _ = CodecLimits::default();

    // Error types
    let _: CodecResult<()> = Ok(());
}

#[test]
fn snapshot_tick_usage() {
    let tick = SnapshotTick::new(100);
    assert_eq!(tick.raw(), 100);
    assert!(!tick.is_zero());
}

#[test]
fn entity_id_usage() {
    let id = EntityId::new(42);
    assert_eq!(id.raw(), 42);
}

#[test]
fn limits_reexported() {
    // Limits is re-exported from wire
    let limits = WireLimits::default();
    assert!(limits.max_packet_bytes > 0);
}
