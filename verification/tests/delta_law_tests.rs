use sdec::codec::{
    apply_delta_snapshot, encode_delta_snapshot, encode_delta_snapshot_for_client, CodecError, CodecLimits,
    ComponentSnapshot, EntityId, EntitySnapshot, FieldValue, Snapshot, SnapshotTick,
};
use sdec::schema::{ComponentDef, ComponentId, FieldCodec, FieldDef, FieldId, Schema};
use sdec::wire::Limits as WireLimits;

fn component(id: u16, fields: usize) -> ComponentDef {
    let mut c = ComponentDef::new(ComponentId::new(id).unwrap());
    for idx in 0..fields {
        c = c.field(FieldDef::new(FieldId::new(idx as u16 + 1).unwrap(), FieldCodec::uint(8)));
    }
    c
}

fn entity(id: u32, comps: &[(u16, u64)], fields: usize) -> EntitySnapshot {
    EntitySnapshot {
        id: EntityId::new(id),
        components: comps
            .iter()
            .map(|(cid, value)| ComponentSnapshot {
                id: ComponentId::new(*cid).unwrap(),
                fields: (0..fields).map(|_| FieldValue::UInt(*value)).collect(),
            })
            .collect(),
    }
}

fn roundtrip(schema: &Schema, baseline: &Snapshot, current: &Snapshot, client: bool) -> Result<Snapshot, CodecError> {
    let limits = CodecLimits::for_testing();
    let mut buf = vec![0u8; 4096];
    let n = if client {
        encode_delta_snapshot_for_client(schema, current.tick, baseline.tick, baseline, current, &limits, &mut buf)?
    } else {
        encode_delta_snapshot(schema, current.tick, baseline.tick, baseline, current, &limits, &mut buf)?
    };
    apply_delta_snapshot(schema, baseline, &buf[..n], &WireLimits::for_testing(), &limits)
}

#[test]
fn delta_apply_gives_current_with_creates_destroys_updates() {
    let schema = Schema::new(vec![component(1, 3), component(2, 2)]).unwrap();
    let baseline = Snapshot {
        tick: SnapshotTick::new(4),
        entities: vec![
            entity(1, &[(2, 0)], 2),
            EntitySnapshot {
                id: EntityId::new(2),
                components: vec![
                    ComponentSnapshot {
                        id: ComponentId::new(1).unwrap(),
                        fields: vec![FieldValue::UInt(1), FieldValue::UInt(2), FieldValue::UInt(3)],
                    },
                    ComponentSnapshot {
                        id: ComponentId::new(2).unwrap(),
                        fields: vec![FieldValue::UInt(4), FieldValue::UInt(5)],
                    },
                ],
            },
            EntitySnapshot {
                id: EntityId::new(5),
                components: vec![ComponentSnapshot {
                    id: ComponentId::new(2).unwrap(),
                    fields: vec![FieldValue::UInt(9), FieldValue::UInt(9)],
                }],
            },
        ],
    };
    let current = Snapshot {
        tick: SnapshotTick::new(5),
        entities: vec![
            EntitySnapshot {
                id: EntityId::new(2),
                components: vec![
                    ComponentSnapshot {
                        id: ComponentId::new(1).unwrap(),
                        fields: vec![FieldValue::UInt(1), FieldValue::UInt(7), FieldValue::UInt(3)],
                    },
                    ComponentSnapshot {
                        id: ComponentId::new(2).unwrap(),
                        fields: vec![FieldValue::UInt(4), FieldValue::UInt(8)],
                    },
                ],
            },
            EntitySnapshot {
                id: EntityId::new(3),
                components: vec![ComponentSnapshot {
                    id: ComponentId::new(1).unwrap(),
                    fields: vec![FieldValue::UInt(10), FieldValue::UInt(11), FieldValue::UInt(12)],
                }],
            },
            EntitySnapshot {
                id: EntityId::new(5),
                components: vec![ComponentSnapshot {
                    id: ComponentId::new(2).unwrap(),
                    fields: vec![FieldValue::UInt(9), FieldValue::UInt(9)],
                }],
            },
        ],
    };
    for client in [false, true] {
        let applied = roundtrip(&schema, &baseline, &current, client).unwrap();
        assert_eq!(applied.tick, current.tick);
        assert_eq!(applied.entities, current.entities);
    }
}

#[test]
fn sparse_entries_need_ascending_component_ids() {
    // Components listed with descending ids: a sparse section writes the
    // entries of one entity in schema order, which the decoder refuses.
    let schema = Schema::new(vec![component(2, 1), component(1, 1)]).unwrap();
    let baseline = Snapshot {
        tick: SnapshotTick::new(1),
        entities: vec![entity(7, &[(2, 0), (1, 0)], 1)],
    };
    let current = Snapshot {
        tick: SnapshotTick::new(2),
        entities: vec![entity(7, &[(2, 1), (1, 1)], 1)],
    };
    let err = roundtrip(&schema, &baseline, &current, true).unwrap_err();
    assert_eq!(err, CodecError::InvalidEntityOrder { previous: 7, current: 7 });
    // A single changed component reads back fine.
    let current_one = Snapshot {
        tick: SnapshotTick::new(2),
        entities: vec![entity(7, &[(2, 1), (1, 0)], 1)],
    };
    let applied = roundtrip(&schema, &baseline, &current_one, true).unwrap();
    assert_eq!(applied.entities, current_one.entities);
}

#[test]
fn delta_against_tick_zero_is_refused_on_apply() {
    let schema = Schema::new(vec![component(1, 1)]).unwrap();
    let baseline = Snapshot {
        tick: SnapshotTick::new(0),
        entities: vec![entity(1, &[(1, 0)], 1)],
    };
    let current = Snapshot {
        tick: SnapshotTick::new(1),
        entities: vec![entity(1, &[(1, 1)], 1)],
    };
    let err = roundtrip(&schema, &baseline, &current, false).unwrap_err();
    assert!(matches!(err, CodecError::Wire(_)));
}

#[test]
fn threshold_fields_keep_baseline_value() {
    let mut c = ComponentDef::new(ComponentId::new(1).unwrap());
    c = c.field(FieldDef::with_threshold(FieldId::new(1).unwrap(), FieldCodec::uint(8), 5));
    c = c.field(FieldDef::new(FieldId::new(2).unwrap(), FieldCodec::uint(8)));
    let schema = Schema::new(vec![c]).unwrap();
    let baseline = Snapshot {
        tick: SnapshotTick::new(1),
        entities: vec![EntitySnapshot {
            id: EntityId::new(1),
            components: vec![ComponentSnapshot {
                id: ComponentId::new(1).unwrap(),
                fields: vec![FieldValue::UInt(10), FieldValue::UInt(0)],
            }],
        }],
    };
    let current = Snapshot {
        tick: SnapshotTick::new(2),
        entities: vec![EntitySnapshot {
            id: EntityId::new(1),
            components: vec![ComponentSnapshot {
                id: ComponentId::new(1).unwrap(),
                fields: vec![FieldValue::UInt(13), FieldValue::UInt(1)],
            }],
        }],
    };
    let applied = roundtrip(&schema, &baseline, &current, false).unwrap();
    assert_eq!(
        applied.entities[0].components[0].fields,
        vec![FieldValue::UInt(10), FieldValue::UInt(1)]
    );
}
