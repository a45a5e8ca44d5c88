use sdec::codec::{
    decode_session_init_packet, decode_session_packet,
    encode_delta_snapshot_for_client_session_with_scratch, encode_session_init_packet, CodecLimits,
    CodecScratch, CompactHeaderMode, ComponentSnapshot, EntityId, EntitySnapshot, FieldValue,
    SessionState, Snapshot, SnapshotTick,
};
use sdec::schema;
use sdec::schema::{schema_hash, ComponentDef, FieldCodec, FieldDef, FieldId, Schema};
use sdec::wire;


fn schema_one_bool() -> Schema {
    let component = ComponentDef::new(schema::ComponentId::new(1).unwrap())
        .field(FieldDef::new(FieldId::new(1).unwrap(), FieldCodec::bool()));
    Schema::new(vec![component]).unwrap()
}

#[test]
fn session_init_roundtrip() {
    let schema = schema_one_bool();
    let mut buf = [0u8; 128];
    let bytes = encode_session_init_packet(
        &schema,
        SnapshotTick::new(5),
        Some(42),
        CompactHeaderMode::SessionV1,
        &CodecLimits::for_testing(),
        &mut buf,
    )
    .unwrap();
    let packet = wire::decode_packet(&buf[..bytes], &wire::Limits::for_testing()).unwrap();
    let session =
        decode_session_init_packet(&schema, &packet, &CodecLimits::for_testing()).unwrap();
    assert_eq!(session.session_id, Some(42));
    assert_eq!(session.last_tick.raw(), 5);
}

#[test]
fn session_decode_compact_packet() {
    let schema = schema_one_bool();
    let baseline = Snapshot {
        tick: SnapshotTick::new(10),
        entities: vec![EntitySnapshot {
            id: EntityId::new(1),
            components: vec![ComponentSnapshot {
                id: schema::ComponentId::new(1).unwrap(),
                fields: vec![FieldValue::Bool(false)],
            }],
        }],
    };
    let current = Snapshot {
        tick: SnapshotTick::new(11),
        entities: vec![EntitySnapshot {
            id: EntityId::new(1),
            components: vec![ComponentSnapshot {
                id: schema::ComponentId::new(1).unwrap(),
                fields: vec![FieldValue::Bool(true)],
            }],
        }],
    };
    let mut session = SessionState {
        schema_hash: schema_hash(&schema),
        session_id: Some(1),
        last_tick: baseline.tick,
        compact_mode: CompactHeaderMode::SessionV1,
    };
    let mut buf = [0u8; 256];
    let bytes = encode_delta_snapshot_for_client_session_with_scratch(
        &schema,
        current.tick,
        baseline.tick,
        &baseline,
        &current,
        &CodecLimits::for_testing(),
        &mut CodecScratch::default(),
        &mut session.last_tick,
        &mut buf,
    )
    .unwrap();
    let packet = decode_session_packet(
        &schema,
        &mut session,
        &buf[..bytes],
        &wire::Limits::for_testing(),
    )
    .unwrap();
    assert!(packet.header.flags.is_delta_snapshot());
}
