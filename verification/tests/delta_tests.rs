use sdec::codec::{
    apply_delta_snapshot, apply_delta_snapshot_from_packet, decode_delta_packet,
    encode_delta_snapshot, encode_delta_snapshot_for_client,
    encode_delta_snapshot_for_client_session_with_scratch,
    encode_delta_snapshot_with_scratch, CodecError, CodecLimits, CodecScratch, ComponentSnapshot,
    EntityId, EntitySnapshot, FieldValue, Snapshot, SnapshotTick,
};
use sdec::schema::{
    schema_hash, ChangePolicy, ComponentDef, ComponentId, FieldCodec, FieldDef, FieldId, Schema,
};
use sdec::wire;
use sdec::wire::{encode_header, SectionTag};


fn schema_one_bool() -> Schema {
    let component = ComponentDef::new(ComponentId::new(1).unwrap())
        .field(FieldDef::new(FieldId::new(1).unwrap(), FieldCodec::bool()));
    Schema::new(vec![component]).unwrap()
}

fn schema_uint_threshold(threshold_q: u32) -> Schema {
    let field = FieldDef::new(FieldId::new(1).unwrap(), FieldCodec::uint(8))
        .change(ChangePolicy::Threshold { threshold_q });
    let component = ComponentDef::new(ComponentId::new(1).unwrap()).field(field);
    Schema::new(vec![component]).unwrap()
}

fn schema_two_components() -> Schema {
    let c1 = ComponentDef::new(ComponentId::new(1).unwrap())
        .field(FieldDef::new(FieldId::new(1).unwrap(), FieldCodec::bool()));
    let c2 = ComponentDef::new(ComponentId::new(2).unwrap())
        .field(FieldDef::new(FieldId::new(1).unwrap(), FieldCodec::bool()));
    Schema::new(vec![c1, c2]).unwrap()
}

fn baseline_snapshot() -> Snapshot {
    Snapshot {
        tick: SnapshotTick::new(10),
        entities: vec![EntitySnapshot {
            id: EntityId::new(1),
            components: vec![ComponentSnapshot {
                id: ComponentId::new(1).unwrap(),
                fields: vec![FieldValue::Bool(false)],
            }],
        }],
    }
}

#[test]
fn no_op_delta_is_empty() {
    let schema = schema_one_bool();
    let baseline = baseline_snapshot();
    let current = baseline.clone();
    let mut buf = [0u8; 128];
    let bytes = encode_delta_snapshot(
        &schema,
        SnapshotTick::new(11),
        baseline.tick,
        &baseline,
        &current,
        &CodecLimits::for_testing(),
        &mut buf,
    )
    .unwrap();
    let header =
        wire::PacketHeader::delta_snapshot(schema_hash(&schema), 11, baseline.tick.raw(), 0);
    let mut expected = [0u8; wire::HEADER_SIZE];
    encode_header(&header, &mut expected).unwrap();
    assert_eq!(&buf[..bytes], expected.as_slice());
}

#[test]
fn delta_roundtrip_single_update() {
    let schema = schema_one_bool();
    let baseline = baseline_snapshot();
    let current = Snapshot {
        tick: SnapshotTick::new(11),
        entities: vec![EntitySnapshot {
            id: EntityId::new(1),
            components: vec![ComponentSnapshot {
                id: ComponentId::new(1).unwrap(),
                fields: vec![FieldValue::Bool(true)],
            }],
        }],
    };

    let mut buf = [0u8; 128];
    let bytes = encode_delta_snapshot(
        &schema,
        current.tick,
        baseline.tick,
        &baseline,
        &current,
        &CodecLimits::for_testing(),
        &mut buf,
    )
    .unwrap();
    let applied = apply_delta_snapshot(
        &schema,
        &baseline,
        &buf[..bytes],
        &wire::Limits::for_testing(),
        &CodecLimits::for_testing(),
    )
    .unwrap();
    assert_eq!(applied.entities, current.entities);
}

#[test]
fn delta_roundtrip_reuse_scratch() {
    let schema = schema_one_bool();
    let baseline = baseline_snapshot();
    let current_one = Snapshot {
        tick: SnapshotTick::new(11),
        entities: vec![EntitySnapshot {
            id: EntityId::new(1),
            components: vec![ComponentSnapshot {
                id: ComponentId::new(1).unwrap(),
                fields: vec![FieldValue::Bool(true)],
            }],
        }],
    };
    let current_two = Snapshot {
        tick: SnapshotTick::new(12),
        entities: vec![EntitySnapshot {
            id: EntityId::new(1),
            components: vec![ComponentSnapshot {
                id: ComponentId::new(1).unwrap(),
                fields: vec![FieldValue::Bool(false)],
            }],
        }],
    };

    let mut scratch = CodecScratch::default();
    let mut buf_one = [0u8; 128];
    let mut buf_two = [0u8; 128];

    let bytes_one = encode_delta_snapshot_with_scratch(
        &schema,
        current_one.tick,
        baseline.tick,
        &baseline,
        &current_one,
        &CodecLimits::for_testing(),
        &mut scratch,
        &mut buf_one,
    )
    .unwrap();
    let applied_one = apply_delta_snapshot(
        &schema,
        &baseline,
        &buf_one[..bytes_one],
        &wire::Limits::for_testing(),
        &CodecLimits::for_testing(),
    )
    .unwrap();
    assert_eq!(applied_one.entities, current_one.entities);

    let bytes_two = encode_delta_snapshot_with_scratch(
        &schema,
        current_two.tick,
        baseline.tick,
        &baseline,
        &current_two,
        &CodecLimits::for_testing(),
        &mut scratch,
        &mut buf_two,
    )
    .unwrap();
    let applied_two = apply_delta_snapshot(
        &schema,
        &baseline,
        &buf_two[..bytes_two],
        &wire::Limits::for_testing(),
        &CodecLimits::for_testing(),
    )
    .unwrap();
    assert_eq!(applied_two.entities, current_two.entities);
}

#[test]
fn delta_rejects_both_update_encodings() {
    let schema = schema_one_bool();
    let baseline = baseline_snapshot();
    let update_body = [0u8; 1];
    let mut update_section = [0u8; 8];
    let update_len =
        wire::encode_section(SectionTag::EntityUpdate, &update_body, &mut update_section)
            .unwrap();

    let mut sparse_section = [0u8; 8];
    let sparse_len = wire::encode_section(
        SectionTag::EntityUpdateSparse,
        &update_body,
        &mut sparse_section,
    )
    .unwrap();

    let payload_len = (update_len + sparse_len) as u32;
    let header = wire::PacketHeader::delta_snapshot(
        schema_hash(&schema),
        baseline.tick.raw() + 1,
        baseline.tick.raw(),
        payload_len,
    );
    let mut buf = vec![0u8; wire::HEADER_SIZE + payload_len as usize];
    wire::encode_header(&header, &mut buf[..wire::HEADER_SIZE]).unwrap();
    buf[wire::HEADER_SIZE..wire::HEADER_SIZE + update_len]
        .copy_from_slice(&update_section[..update_len]);
    buf[wire::HEADER_SIZE + update_len..wire::HEADER_SIZE + update_len + sparse_len]
        .copy_from_slice(&sparse_section[..sparse_len]);

    let packet = wire::decode_packet(&buf, &wire::Limits::for_testing()).unwrap();
    let err = decode_delta_packet(&schema, &packet, &CodecLimits::for_testing()).unwrap_err();
    assert!(matches!(err, CodecError::DuplicateUpdateEncoding));

    let err = apply_delta_snapshot_from_packet(
        &schema,
        &baseline,
        &packet,
        &CodecLimits::for_testing(),
    )
    .unwrap_err();
    assert!(matches!(err, CodecError::DuplicateUpdateEncoding));
}

#[test]
fn delta_roundtrip_create_destroy_update() {
    let schema = schema_one_bool();
    let baseline = Snapshot {
        tick: SnapshotTick::new(10),
        entities: vec![
            EntitySnapshot {
                id: EntityId::new(1),
                components: vec![ComponentSnapshot {
                    id: ComponentId::new(1).unwrap(),
                    fields: vec![FieldValue::Bool(false)],
                }],
            },
            EntitySnapshot {
                id: EntityId::new(2),
                components: vec![ComponentSnapshot {
                    id: ComponentId::new(1).unwrap(),
                    fields: vec![FieldValue::Bool(false)],
                }],
            },
        ],
    };
    let current = Snapshot {
        tick: SnapshotTick::new(11),
        entities: vec![
            EntitySnapshot {
                id: EntityId::new(2),
                components: vec![ComponentSnapshot {
                    id: ComponentId::new(1).unwrap(),
                    fields: vec![FieldValue::Bool(true)],
                }],
            },
            EntitySnapshot {
                id: EntityId::new(3),
                components: vec![ComponentSnapshot {
                    id: ComponentId::new(1).unwrap(),
                    fields: vec![FieldValue::Bool(true)],
                }],
            },
        ],
    };

    let mut buf = [0u8; 256];
    let bytes = encode_delta_snapshot(
        &schema,
        current.tick,
        baseline.tick,
        &baseline,
        &current,
        &CodecLimits::for_testing(),
        &mut buf,
    )
    .unwrap();
    let applied = apply_delta_snapshot(
        &schema,
        &baseline,
        &buf[..bytes],
        &wire::Limits::for_testing(),
        &CodecLimits::for_testing(),
    )
    .unwrap();
    assert_eq!(applied.entities, current.entities);
}

#[test]
fn delta_session_header_matches_payload() {
    let schema = schema_one_bool();
    let baseline = baseline_snapshot();
    let current = Snapshot {
        tick: SnapshotTick::new(11),
        entities: vec![EntitySnapshot {
            id: EntityId::new(1),
            components: vec![ComponentSnapshot {
                id: ComponentId::new(1).unwrap(),
                fields: vec![FieldValue::Bool(true)],
            }],
        }],
    };

    let mut full_buf = [0u8; 128];
    let full_bytes = encode_delta_snapshot_for_client(
        &schema,
        current.tick,
        baseline.tick,
        &baseline,
        &current,
        &CodecLimits::for_testing(),
        &mut full_buf,
    )
    .unwrap();
    let full_payload = &full_buf[wire::HEADER_SIZE..full_bytes];

    let mut session_buf = [0u8; 128];
    let mut last_tick = baseline.tick;
    let session_bytes = encode_delta_snapshot_for_client_session_with_scratch(
        &schema,
        current.tick,
        baseline.tick,
        &baseline,
        &current,
        &CodecLimits::for_testing(),
        &mut CodecScratch::default(),
        &mut last_tick,
        &mut session_buf,
    )
    .unwrap();

    let session_header =
        wire::decode_session_header(&session_buf[..session_bytes], baseline.tick.raw())
            .unwrap();
    let payload_start = session_header.header_len;
    let payload_end = payload_start + session_header.payload_len as usize;
    let session_payload = &session_buf[payload_start..payload_end];
    assert_eq!(full_payload, session_payload);
}

#[test]
fn delta_roundtrip_single_component_change() {
    let schema = schema_two_components();
    let baseline = Snapshot {
        tick: SnapshotTick::new(10),
        entities: vec![EntitySnapshot {
            id: EntityId::new(1),
            components: vec![
                ComponentSnapshot {
                    id: ComponentId::new(1).unwrap(),
                    fields: vec![FieldValue::Bool(false)],
                },
                ComponentSnapshot {
                    id: ComponentId::new(2).unwrap(),
                    fields: vec![FieldValue::Bool(false)],
                },
            ],
        }],
    };
    let current = Snapshot {
        tick: SnapshotTick::new(11),
        entities: vec![EntitySnapshot {
            id: EntityId::new(1),
            components: vec![
                ComponentSnapshot {
                    id: ComponentId::new(1).unwrap(),
                    fields: vec![FieldValue::Bool(true)],
                },
                ComponentSnapshot {
                    id: ComponentId::new(2).unwrap(),
                    fields: vec![FieldValue::Bool(false)],
                },
            ],
        }],
    };

    let mut buf = [0u8; 256];
    let bytes = encode_delta_snapshot(
        &schema,
        current.tick,
        baseline.tick,
        &baseline,
        &current,
        &CodecLimits::for_testing(),
        &mut buf,
    )
    .unwrap();
    let applied = apply_delta_snapshot(
        &schema,
        &baseline,
        &buf[..bytes],
        &wire::Limits::for_testing(),
        &CodecLimits::for_testing(),
    )
    .unwrap();
    assert_eq!(applied.entities, current.entities);
}

#[test]
fn baseline_tick_mismatch_is_error() {
    let schema = schema_one_bool();
    let baseline = baseline_snapshot();
    let current = baseline.clone();
    let mut buf = [0u8; 128];
    let bytes = encode_delta_snapshot(
        &schema,
        SnapshotTick::new(11),
        baseline.tick,
        &baseline,
        &current,
        &CodecLimits::for_testing(),
        &mut buf,
    )
    .unwrap();
    let mut packet = wire::decode_packet(&buf[..bytes], &wire::Limits::for_testing()).unwrap();
    packet.header.baseline_tick = 999;
    wire::encode_header(&packet.header, &mut buf[..wire::HEADER_SIZE]).unwrap();
    let err = apply_delta_snapshot(
        &schema,
        &baseline,
        &buf[..bytes],
        &wire::Limits::for_testing(),
        &CodecLimits::for_testing(),
    )
    .unwrap_err();
    assert!(matches!(err, CodecError::BaselineTickMismatch { .. }));
}

#[test]
fn threshold_suppresses_small_change() {
    let schema = schema_uint_threshold(5);
    let baseline = Snapshot {
        tick: SnapshotTick::new(10),
        entities: vec![EntitySnapshot {
            id: EntityId::new(1),
            components: vec![ComponentSnapshot {
                id: ComponentId::new(1).unwrap(),
                fields: vec![FieldValue::UInt(10)],
            }],
        }],
    };
    let current = Snapshot {
        tick: SnapshotTick::new(11),
        entities: vec![EntitySnapshot {
            id: EntityId::new(1),
            components: vec![ComponentSnapshot {
                id: ComponentId::new(1).unwrap(),
                fields: vec![FieldValue::UInt(12)],
            }],
        }],
    };

    let mut buf = [0u8; 128];
    let bytes = encode_delta_snapshot(
        &schema,
        current.tick,
        baseline.tick,
        &baseline,
        &current,
        &CodecLimits::for_testing(),
        &mut buf,
    )
    .unwrap();

    let packet = wire::decode_packet(&buf[..bytes], &wire::Limits::for_testing()).unwrap();
    assert_eq!(packet.sections.len(), 0);

    let applied = apply_delta_snapshot(
        &schema,
        &baseline,
        &buf[..bytes],
        &wire::Limits::for_testing(),
        &CodecLimits::for_testing(),
    )
    .unwrap();
    assert_eq!(applied.entities, baseline.entities);
}
