use sdec::bitstream::varu32_len;
use sdec::codec::{
    decode_full_snapshot, encode_full_snapshot, CodecError, CodecLimits, ComponentSnapshot,
    EntityId, EntitySnapshot, FieldValue, LimitKind, Snapshot, SnapshotTick,
};
use sdec::schema::{schema_hash, ComponentDef, ComponentId, FieldCodec, FieldDef, FieldId, Schema};
use sdec::wire;
use sdec::wire::bytes::put_varu32;
use sdec::wire::{encode_header, SectionTag};


fn schema_one_bool() -> Schema {
    let component = ComponentDef::new(ComponentId::new(1).unwrap())
        .field(FieldDef::new(FieldId::new(1).unwrap(), FieldCodec::bool()));
    Schema::new(vec![component]).unwrap()
}

fn schema_bool_uint10() -> Schema {
    let component = ComponentDef::new(ComponentId::new(1).unwrap())
        .field(FieldDef::new(FieldId::new(1).unwrap(), FieldCodec::bool()))
        .field(FieldDef::new(
            FieldId::new(2).unwrap(),
            FieldCodec::uint(10),
        ));
    Schema::new(vec![component]).unwrap()
}

#[test]
fn full_snapshot_roundtrip_minimal() {
    let schema = schema_one_bool();
    let snapshot = Snapshot {
        tick: SnapshotTick::new(1),
        entities: vec![EntitySnapshot {
            id: EntityId::new(1),
            components: vec![ComponentSnapshot {
                id: ComponentId::new(1).unwrap(),
                fields: vec![FieldValue::Bool(true)],
            }],
        }],
    };

    let mut buf = [0u8; 128];
    let bytes = encode_full_snapshot(
        &schema,
        snapshot.tick,
        &snapshot.entities,
        &CodecLimits::for_testing(),
        &mut buf,
    )
    .unwrap();
    let decoded = decode_full_snapshot(
        &schema,
        &buf[..bytes],
        &wire::Limits::for_testing(),
        &CodecLimits::for_testing(),
    )
    .unwrap();
    assert_eq!(decoded.entities, snapshot.entities);
}



#[test]
fn decode_rejects_trailing_bytes() {
    let schema = schema_one_bool();
    let entities = vec![EntitySnapshot {
        id: EntityId::new(1),
        components: vec![ComponentSnapshot {
            id: ComponentId::new(1).unwrap(),
            fields: vec![FieldValue::Bool(true)],
        }],
    }];

    let mut buf = [0u8; 128];
    let bytes = encode_full_snapshot(
        &schema,
        SnapshotTick::new(1),
        &entities,
        &CodecLimits::for_testing(),
        &mut buf,
    )
    .unwrap();

    // Add a trailing padding byte to the section body and patch lengths.
    let mut extra = buf[..bytes].to_vec();
    extra[wire::HEADER_SIZE + 1] = 7; // section length varint
    let payload_len = 9u32;
    extra[24..28].copy_from_slice(&payload_len.to_le_bytes());
    extra.push(0);

    let err = decode_full_snapshot(
        &schema,
        &extra,
        &wire::Limits::for_testing(),
        &CodecLimits::for_testing(),
    )
    .unwrap_err();
    assert!(matches!(err, CodecError::TrailingSectionData { .. }));
}

#[test]
fn decode_rejects_excessive_entity_count_early() {
    let schema = schema_one_bool();
    let limits = CodecLimits::for_testing();
    let count = (limits.max_entities_create as u32) + 1;

    let mut body = [0u8; 8];
    put_varu32(&mut body, 0, count);
    let body_len = varu32_len(count);
    let mut section_buf = [0u8; 16];
    let section_len = wire::encode_section(
        SectionTag::EntityCreate,
        &body[..body_len],
        &mut section_buf,
    )
    .unwrap();

    let payload_len = section_len as u32;
    let header = wire::PacketHeader::full_snapshot(schema_hash(&schema), 1, payload_len);
    let mut buf = [0u8; wire::HEADER_SIZE + 16];
    encode_header(&header, &mut buf[..wire::HEADER_SIZE]).unwrap();
    buf[wire::HEADER_SIZE..wire::HEADER_SIZE + section_len]
        .copy_from_slice(&section_buf[..section_len]);
    let buf = &buf[..wire::HEADER_SIZE + section_len];

    let err =
        decode_full_snapshot(&schema, buf, &wire::Limits::for_testing(), &limits).unwrap_err();
    assert!(matches!(
        err,
        CodecError::LimitsExceeded {
            kind: LimitKind::EntitiesCreate,
            ..
        }
    ));
}

#[test]
fn decode_rejects_truncated_prefixes() {
    let schema = schema_one_bool();
    let entities = vec![EntitySnapshot {
        id: EntityId::new(1),
        components: vec![ComponentSnapshot {
            id: ComponentId::new(1).unwrap(),
            fields: vec![FieldValue::Bool(true)],
        }],
    }];

    let mut buf = [0u8; 128];
    let bytes = encode_full_snapshot(
        &schema,
        SnapshotTick::new(1),
        &entities,
        &CodecLimits::for_testing(),
        &mut buf,
    )
    .unwrap();

    for len in 0..bytes {
        let result = decode_full_snapshot(
            &schema,
            &buf[..len],
            &wire::Limits::for_testing(),
            &CodecLimits::for_testing(),
        );
        assert!(result.is_err());
    }
}

#[test]
fn encode_is_deterministic_for_same_input() {
    let schema = schema_one_bool();
    let entities = vec![EntitySnapshot {
        id: EntityId::new(1),
        components: vec![ComponentSnapshot {
            id: ComponentId::new(1).unwrap(),
            fields: vec![FieldValue::Bool(true)],
        }],
    }];

    let mut buf1 = [0u8; 128];
    let mut buf2 = [0u8; 128];
    let bytes1 = encode_full_snapshot(
        &schema,
        SnapshotTick::new(1),
        &entities,
        &CodecLimits::for_testing(),
        &mut buf1,
    )
    .unwrap();
    let bytes2 = encode_full_snapshot(
        &schema,
        SnapshotTick::new(1),
        &entities,
        &CodecLimits::for_testing(),
        &mut buf2,
    )
    .unwrap();

    assert_eq!(&buf1[..bytes1], &buf2[..bytes2]);
}

#[test]
fn decode_rejects_missing_field_mask() {
    let schema = schema_one_bool();
    let entities = vec![EntitySnapshot {
        id: EntityId::new(1),
        components: vec![ComponentSnapshot {
            id: ComponentId::new(1).unwrap(),
            fields: vec![FieldValue::Bool(true)],
        }],
    }];

    let mut buf = [0u8; 128];
    let bytes = encode_full_snapshot(
        &schema,
        SnapshotTick::new(1),
        &entities,
        &CodecLimits::for_testing(),
        &mut buf,
    )
    .unwrap();

    // Flip the field mask bit off (component mask stays on).
    let payload_start = wire::HEADER_SIZE;
    let mask_offset = payload_start + 2 + 1 + 4; // tag + len + count + entity_id
    buf[mask_offset] &= 0b1011_1111;

    let err = decode_full_snapshot(
        &schema,
        &buf[..bytes],
        &wire::Limits::for_testing(),
        &CodecLimits::for_testing(),
    )
    .unwrap_err();
    assert!(matches!(err, CodecError::InvalidMask { .. }));
}

#[test]
fn encode_rejects_unsorted_entities() {
    let schema = schema_one_bool();
    let entities = vec![
        EntitySnapshot {
            id: EntityId::new(2),
            components: vec![ComponentSnapshot {
                id: ComponentId::new(1).unwrap(),
                fields: vec![FieldValue::Bool(true)],
            }],
        },
        EntitySnapshot {
            id: EntityId::new(1),
            components: vec![ComponentSnapshot {
                id: ComponentId::new(1).unwrap(),
                fields: vec![FieldValue::Bool(false)],
            }],
        },
    ];

    let mut buf = [0u8; 128];
    let err = encode_full_snapshot(
        &schema,
        SnapshotTick::new(1),
        &entities,
        &CodecLimits::for_testing(),
        &mut buf,
    )
    .unwrap_err();
    assert!(matches!(err, CodecError::InvalidEntityOrder { .. }));
}

