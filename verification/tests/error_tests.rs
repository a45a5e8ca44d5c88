use sdec::bitstream::BitError;
use sdec::codec::{CodecError, LimitKind as CodecLimitKind, MaskKind, MaskReason, ValueReason};
use sdec::schema::{ComponentId, FieldId};
use sdec::wire::{DecodeError, EncodeError, LimitKind, SectionFramingError, SectionTag, WireError};

// Bit-level errors.
#[test]
fn error_display_end_of_buffer() {
    let err = BitError::EndOfBuffer {
        requested: 8,
        available: 3,
    };
    let msg = err.to_string();
    assert!(msg.contains("8 bits"), "should mention requested bits");
    assert!(msg.contains("3 bits"), "should mention available bits");
    assert!(msg.contains("read"), "should mention read operation");
}

#[test]
fn error_display_buffer_overflow() {
    let err = BitError::BufferOverflow {
        attempted: 100,
        capacity: 64,
    };
    let msg = err.to_string();
    assert!(msg.contains("100"), "should mention attempted bits");
    assert!(msg.contains("64"), "should mention capacity");
    assert!(msg.contains("write"), "should mention write operation");
}

#[test]
fn error_display_invalid_bit_count() {
    let err = BitError::InvalidBitCount {
        bits: 128,
        max_bits: 64,
    };
    let msg = err.to_string();
    assert!(msg.contains("128"), "should mention invalid count");
    assert!(msg.contains("64"), "should mention maximum");
}

#[test]
fn error_display_value_out_of_range() {
    let err = BitError::ValueOutOfRange {
        value: 256,
        bits: 8,
    };
    let msg = err.to_string();
    assert!(msg.contains("256"), "should mention the value");
    assert!(msg.contains("8 bits"), "should mention bit count");
}

#[test]
fn error_equality() {
    let err1 = BitError::EndOfBuffer {
        requested: 8,
        available: 3,
    };
    let err2 = BitError::EndOfBuffer {
        requested: 8,
        available: 3,
    };
    let err3 = BitError::EndOfBuffer {
        requested: 8,
        available: 4,
    };
    assert_eq!(err1, err2);
    assert_ne!(err1, err3);
}

#[test]
fn error_clone() {
    let err = BitError::InvalidBitCount {
        bits: 65,
        max_bits: 64,
    };
    let cloned = err.clone();
    assert_eq!(err, cloned);
}

#[test]
fn error_debug() {
    let err = BitError::EndOfBuffer {
        requested: 1,
        available: 0,
    };
    let debug = format!("{err:?}");
    assert!(debug.contains("EndOfBuffer"));
}

#[test]
fn bit_error_messages_exact() {
    assert_eq!(
        BitError::EndOfBuffer { requested: 8, available: 3 }.to_string(),
        "attempted to read 8 bits but only 3 bits available"
    );
    assert_eq!(
        BitError::ValueOutOfRange { value: 0, bits: 1 }.to_string(),
        "value 0 cannot be represented in 1 bits"
    );
    assert_eq!(
        BitError::MisalignedAccess { bit_position: 1234567 }.to_string(),
        "misaligned byte access at bit 1234567"
    );
    assert_eq!(BitError::InvalidVarint.to_string(), "invalid varint");
    assert_eq!(
        BitError::ValueOutOfRange { value: u64::MAX, bits: 64 }.to_string(),
        "value 18446744073709551615 cannot be represented in 64 bits"
    );
}

// Codec errors.
#[test]
fn error_display_baseline_not_found() {
    let err = CodecError::BaselineNotFound { requested_tick: 42 };
    let msg = err.to_string();
    assert!(msg.contains("42"), "should mention tick");
    assert!(msg.contains("baseline"), "should mention baseline");
}

#[test]
fn error_display_entity_not_found() {
    let err = CodecError::EntityNotFound { entity_id: 123 };
    let msg = err.to_string();
    assert!(msg.contains("123"), "should mention entity id");
}

#[test]
fn error_display_component_not_found() {
    let err = CodecError::ComponentNotFound {
        entity_id: 10,
        component_id: 5,
    };
    let msg = err.to_string();
    assert!(msg.contains("10"), "should mention entity id");
    assert!(msg.contains('5'), "should mention component id");
}

#[test]
fn error_display_duplicate_entity() {
    let err = CodecError::DuplicateEntity { entity_id: 42 };
    let msg = err.to_string();
    assert!(msg.contains("42"), "should mention entity id");
    assert!(msg.contains("duplicate"), "should mention duplicate");
}

#[test]
fn error_display_entity_already_exists() {
    let err = CodecError::EntityAlreadyExists { entity_id: 99 };
    let msg = err.to_string();
    assert!(msg.contains("99"), "should mention entity id");
    assert!(msg.contains("exists"), "should mention exists");
}

#[test]
fn error_from_wire_error() {
    let wire_err = WireError::InvalidMagic { found: 0x1234 };
    let codec_err: CodecError = wire_err.into();
    assert!(matches!(codec_err, CodecError::Wire(_)));
}

#[test]
fn error_source_wire() {
    let wire_err = WireError::InvalidMagic { found: 0x1234 };
    let codec_err = CodecError::Wire(wire_err);
    let source = codec_err.source();
    assert!(source.is_some(), "should have a source");
}

#[test]
fn error_source_none_for_others() {
    let err = CodecError::EntityNotFound { entity_id: 1 };
    let source = err.source();
    assert!(source.is_none(), "non-wrapped errors should have no source");
}

#[test]
fn error_error_equality() {
    let err1 = CodecError::EntityNotFound { entity_id: 42 };
    let err2 = CodecError::EntityNotFound { entity_id: 42 };
    let err3 = CodecError::EntityNotFound { entity_id: 43 };

    assert_eq!(err1, err2);
    assert_ne!(err1, err3);
}

#[test]
fn codec_error_messages_exact() {
    assert_eq!(
        CodecError::Wire(DecodeError::InvalidMagic { found: 0x1234 }).to_string(),
        "wire error: invalid magic number: 0x00001234"
    );
    assert_eq!(
        CodecError::Bitstream(BitError::InvalidVarint).to_string(),
        "bitstream error: invalid varint"
    );
    assert_eq!(
        CodecError::LimitsExceeded {
            kind: CodecLimitKind::EntitiesCreate,
            limit: 4,
            actual: 10,
        }
        .to_string(),
        "entities create limit exceeded: 10 > 4"
    );
    assert_eq!(
        CodecError::SchemaMismatch { expected: 0xABCD, found: 0 }.to_string(),
        "schema hash mismatch: expected 0x000000000000ABCD, found 0x0000000000000000"
    );
    let component = ComponentId::new(7).unwrap();
    let field = FieldId::new(2).unwrap();
    assert_eq!(
        CodecError::InvalidMask {
            kind: MaskKind::FieldMask { component },
            reason: MaskReason::InvalidFieldIndex { field_index: 9, max: 3 },
        }
        .to_string(),
        "invalid field mask of component 7: field index 9 out of range (max 3)"
    );
    assert_eq!(
        CodecError::InvalidValue {
            component,
            field,
            reason: ValueReason::SignedOutOfRange { bits: 4, value: -9 },
        }
        .to_string(),
        "invalid value for field 2 of component 7: -9 does not fit in 4 signed bits"
    );
    assert_eq!(
        CodecError::InvalidValue {
            component,
            field,
            reason: ValueReason::FixedPointOutOfRange {
                min_q: i64::MIN,
                max_q: 5,
                value: 6,
            },
        }
        .to_string(),
        "invalid value for field 2 of component 7: 6 is outside -9223372036854775808..=5"
    );
    assert_eq!(
        CodecError::TrailingSectionData {
            section: SectionTag::EntityUpdate,
            remaining_bits: 12,
        }
        .to_string(),
        "section 3 has 12 trailing bits"
    );
}

#[test]
fn needs_resync_for_session_and_baseline_errors() {
    assert!(CodecError::SessionMissing.needs_resync());
    assert!(CodecError::SessionInitInvalid.needs_resync());
    assert!(CodecError::SessionUnsupportedMode { mode: 9 }.needs_resync());
    assert!(CodecError::SessionOutOfOrder { previous: 5, current: 5 }.needs_resync());
    assert!(CodecError::BaselineNotFound { requested_tick: 3 }.needs_resync());
    assert!(CodecError::BaselineTickMismatch { expected: 3, found: 4 }.needs_resync());
    assert!(CodecError::Wire(DecodeError::InvalidBaselineTick {
        baseline_tick: 0,
        flags: 2,
    })
    .needs_resync());
}

#[test]
fn needs_resync_false_for_data_errors() {
    assert!(!CodecError::EntityNotFound { entity_id: 1 }.needs_resync());
    assert!(!CodecError::InvalidEntityOrder { previous: 2, current: 1 }.needs_resync());
    assert!(!CodecError::Wire(DecodeError::InvalidMagic { found: 0 }).needs_resync());
    assert!(!CodecError::OutputTooSmall { needed: 10, available: 4 }.needs_resync());
    assert!(!CodecError::DuplicateUpdateEncoding.needs_resync());
}

// Wire errors.
#[test]
fn decode_error_display_invalid_magic() {
    let err = DecodeError::InvalidMagic { found: 0xDEAD_BEEF };
    let msg = err.to_string();
    assert!(msg.contains("DEADBEEF"));
}

#[test]
fn decode_error_display_limits_exceeded() {
    let err = DecodeError::LimitsExceeded {
        kind: LimitKind::SectionCount,
        limit: 4,
        actual: 10,
    };
    let msg = err.to_string();
    assert!(msg.contains("section count"));
    assert!(msg.contains("10"));
}

#[test]
fn section_framing_display() {
    let err = SectionFramingError::Truncated {
        needed: 10,
        available: 4,
    };
    let msg = err.to_string();
    assert!(msg.contains("truncated"));
    assert!(msg.contains("10"));
}

#[test]
fn encode_error_display() {
    let err = EncodeError::BufferTooSmall {
        needed: 10,
        available: 4,
    };
    let msg = err.to_string();
    assert!(msg.contains("buffer too small"));
}

#[test]
fn wire_error_messages_exact() {
    assert_eq!(
        DecodeError::InvalidFlags { flags: 0x0A }.to_string(),
        "invalid flags: 0x000A"
    );
    assert_eq!(
        DecodeError::InvalidBaselineTick {
            baseline_tick: 0,
            flags: 2,
        }
        .to_string(),
        "invalid baseline tick 0 for flags 0x0002"
    );
    assert_eq!(
        DecodeError::SectionFraming(SectionFramingError::LengthOverflow { value: 300 }).to_string(),
        "section framing error: length overflow: 300"
    );
    assert_eq!(
        DecodeError::PacketTooSmall {
            actual: 3,
            required: 28,
        }
        .to_string(),
        "packet too small: 3 bytes, need at least 28"
    );
    assert_eq!(LimitKind::PacketBytes.to_string(), "packet bytes");
    assert_eq!(
        EncodeError::LengthOverflow { length: 5 }.to_string(),
        "length overflow: 5"
    );
}
