use sdec::wire::{
    decode_packet, decode_session_header, encode_header, encode_section, encode_session_header,
    DecodeError, LimitKind, Limits, PacketFlags, PacketHeader, SectionFramingError, SectionTag,
    SessionFlags, WireResult, HEADER_SIZE, MAGIC, SESSION_MAX_HEADER_SIZE, VERSION,
};
use std::mem::size_of;

// Constants tests
#[test]
fn magic_is_sdec_ascii() {
    // S=0x53, D=0x44, E=0x45, C=0x43
    assert_eq!(MAGIC, 0x5344_4543);
    let bytes = MAGIC.to_be_bytes();
    assert_eq!(&bytes, b"SDEC");
}

#[test]
fn version_is_two() {
    assert_eq!(VERSION, 2);
}

#[test]
fn header_size_is_correct() {
    // magic(4) + version(2) + flags(2) + schema_hash(8) + tick(4) + baseline_tick(4) + payload_len(4)
    assert_eq!(HEADER_SIZE, 28);
}

// PacketFlags tests
#[test]
fn flags_full_snapshot() {
    let flags = PacketFlags::full_snapshot();
    assert!(flags.is_full_snapshot());
    assert!(!flags.is_delta_snapshot());
    assert_eq!(flags.raw(), 0b01);
}

#[test]
fn flags_delta_snapshot() {
    let flags = PacketFlags::delta_snapshot();
    assert!(!flags.is_full_snapshot());
    assert!(flags.is_delta_snapshot());
    assert_eq!(flags.raw(), 0b10);
}

#[test]
fn flags_from_raw_roundtrip() {
    let flags = PacketFlags::from_raw(0b01);
    assert_eq!(flags.raw(), 0b01);
    assert!(flags.is_full_snapshot());
}

#[test]
fn flags_validity_full() {
    assert!(PacketFlags::full_snapshot().is_valid_v0());
}

#[test]
fn flags_validity_delta() {
    assert!(PacketFlags::delta_snapshot().is_valid_v0());
}

#[test]
fn flags_invalid_neither_set() {
    assert!(!PacketFlags::from_raw(0).is_valid_v0());
}

#[test]
fn flags_invalid_both_set() {
    assert!(!PacketFlags::from_raw(0b11).is_valid_v2());
}

#[test]
fn flags_invalid_reserved_bits() {
    // Full snapshot + reserved bit
    assert!(!PacketFlags::from_raw(0b1001).is_valid_v2());
    // High bits set
    assert!(!PacketFlags::from_raw(0xFF01).is_valid_v2());
}

#[test]
fn flags_default() {
    let flags = PacketFlags::default();
    assert_eq!(flags.raw(), 0);
    assert!(!flags.is_valid_v2()); // default is invalid (neither set)
}

#[test]
fn flags_equality() {
    assert_eq!(PacketFlags::full_snapshot(), PacketFlags::from_raw(0b01));
    assert_ne!(PacketFlags::full_snapshot(), PacketFlags::delta_snapshot());
}

#[test]
fn flags_clone_copy() {
    let flags = PacketFlags::full_snapshot();
    let copied = flags; // Copy
    assert_eq!(flags, copied);
}

// PacketHeader tests
#[test]
fn header_full_snapshot() {
    let header = PacketHeader::full_snapshot(0x1234_5678_9ABC_DEF0, 100, 512);

    assert_eq!(header.version, VERSION);
    assert!(header.flags.is_full_snapshot());
    assert!(!header.flags.is_delta_snapshot());
    assert_eq!(header.schema_hash, 0x1234_5678_9ABC_DEF0);
    assert_eq!(header.tick, 100);
    assert_eq!(header.baseline_tick, 0);
    assert_eq!(header.payload_len, 512);
}

#[test]
fn header_delta_snapshot() {
    let header = PacketHeader::delta_snapshot(0xABCD, 100, 95, 256);

    assert_eq!(header.version, VERSION);
    assert!(header.flags.is_delta_snapshot());
    assert!(!header.flags.is_full_snapshot());
    assert_eq!(header.schema_hash, 0xABCD);
    assert_eq!(header.tick, 100);
    assert_eq!(header.baseline_tick, 95);
    assert_eq!(header.payload_len, 256);
}

#[test]
fn header_equality() {
    let h1 = PacketHeader::full_snapshot(0x1234, 100, 512);
    let h2 = PacketHeader::full_snapshot(0x1234, 100, 512);
    let h3 = PacketHeader::full_snapshot(0x1234, 101, 512);

    assert_eq!(h1, h2);
    assert_ne!(h1, h3);
}

#[test]
fn header_clone_copy() {
    let header = PacketHeader::full_snapshot(0x1234, 100, 512);
    let copied = header; // Copy
    assert_eq!(header, copied);
}

#[test]
fn header_debug() {
    let header = PacketHeader::full_snapshot(0x1234, 100, 512);
    let debug = format!("{header:?}");
    assert!(debug.contains("PacketHeader"));
    assert!(debug.contains("100")); // tick
}


#[test]
fn public_api_exports() {
    // Verify all expected items are exported
    let _ = MAGIC;
    let _ = VERSION;
    let _ = HEADER_SIZE;
    let _ = PacketFlags::full_snapshot();
    let _ = PacketHeader::full_snapshot(0, 0, 0);
    let _ = Limits::default();

    // Error types
    let _: WireResult<()> = Ok(());
}

#[test]
fn limits_default_is_reasonable() {
    let limits = Limits::default();
    // Should be able to handle typical FPS scenarios
    assert!(
        limits.max_packet_bytes >= 1024,
        "should allow at least 1KB packets"
    );
    assert!(
        limits.max_entities_update >= 64,
        "should allow at least 64 entity updates"
    );
}

#[test]
fn header_size_constant_correct() {
    // Sanity check the header size calculation
    assert_eq!(
        HEADER_SIZE,
        size_of::<u32>() // magic
            + size_of::<u16>() // version
            + size_of::<u16>() // flags
            + size_of::<u64>() // schema_hash
            + size_of::<u32>() // tick
            + size_of::<u32>() // baseline_tick
            + size_of::<u32>() // payload_len
    );
}

#[test]
fn packet_flags_and_header_integration() {
    let flags = PacketFlags::delta_snapshot();
    let header = PacketHeader::delta_snapshot(0x1234, 100, 95, 512);

    assert_eq!(header.flags, flags);
    assert!(header.flags.is_valid_v0());
}

#[test]
fn default_limits_packet_bytes() {
    let limits = Limits::default();
    assert_eq!(limits.max_packet_bytes, 64 * 1024);
}

#[test]
fn default_limits_sections() {
    let limits = Limits::default();
    assert_eq!(limits.max_sections, 16);
}

#[test]
fn default_limits_entities() {
    let limits = Limits::default();
    assert_eq!(limits.max_entities_create, 256);
    assert_eq!(limits.max_entities_update, 1024);
    assert_eq!(limits.max_entities_destroy, 256);
    // Update should be >= create (updates are more common)
    assert!(limits.max_entities_update >= limits.max_entities_create);
}

#[test]
fn default_limits_components_fields() {
    let limits = Limits::default();
    assert_eq!(limits.max_components_per_entity, 64);
    assert_eq!(limits.max_fields_per_component, 64);
}

#[test]
fn testing_limits_smaller() {
    let test_limits = Limits::for_testing();
    let default_limits = Limits::default();

    assert!(test_limits.max_packet_bytes < default_limits.max_packet_bytes);
    assert!(test_limits.max_sections < default_limits.max_sections);
    assert!(test_limits.max_entities_create < default_limits.max_entities_create);
    assert!(test_limits.max_entities_update < default_limits.max_entities_update);
    assert!(test_limits.max_entities_destroy < default_limits.max_entities_destroy);
}

#[test]
fn testing_limits_values() {
    let limits = Limits::for_testing();
    assert_eq!(limits.max_packet_bytes, 4096);
    assert_eq!(limits.max_sections, 8);
    assert_eq!(limits.max_entities_create, 32);
    assert_eq!(limits.max_entities_update, 64);
    assert_eq!(limits.max_entities_destroy, 32);
    assert_eq!(limits.max_components_per_entity, 16);
    assert_eq!(limits.max_fields_per_component, 16);
}

#[test]
fn unlimited_limits() {
    let limits = Limits::unlimited();
    assert_eq!(limits.max_packet_bytes, usize::MAX);
    assert_eq!(limits.max_sections, usize::MAX);
    assert_eq!(limits.max_entities_create, usize::MAX);
    assert_eq!(limits.max_entities_update, usize::MAX);
    assert_eq!(limits.max_entities_destroy, usize::MAX);
    assert_eq!(limits.max_components_per_entity, usize::MAX);
    assert_eq!(limits.max_fields_per_component, usize::MAX);
}

#[test]
fn limits_equality() {
    let l1 = Limits::default();
    let l2 = Limits::default();
    let l3 = Limits::for_testing();

    assert_eq!(l1, l2);
    assert_ne!(l1, l3);
}

#[test]
fn limits_clone() {
    let limits = Limits::default();
    let cloned = limits.clone();
    assert_eq!(limits, cloned);
}

#[test]
fn limits_debug() {
    let limits = Limits::default();
    let debug = format!("{limits:?}");
    assert!(debug.contains("Limits"));
    assert!(debug.contains("max_packet_bytes"));
}

#[test]
fn encode_header_roundtrip_empty_payload() {
    let header = PacketHeader::full_snapshot(0xABCD, 42, 0);
    let mut buf = [0u8; HEADER_SIZE];
    let written = encode_header(&header, &mut buf).unwrap();
    assert_eq!(written, HEADER_SIZE);

    let limits = Limits::for_testing();
    let packet = decode_packet(&buf, &limits).unwrap();
    assert_eq!(packet.header, header);
    assert!(packet.sections.is_empty());
}

#[test]
fn decode_rejects_invalid_magic() {
    let mut buf = [0u8; HEADER_SIZE];
    buf[0..4].copy_from_slice(&0xDEAD_BEEFu32.to_le_bytes());
    buf[4..6].copy_from_slice(&VERSION.to_le_bytes());
    buf[6..8].copy_from_slice(&PacketFlags::full_snapshot().raw().to_le_bytes());
    let limits = Limits::for_testing();
    let err = decode_packet(&buf, &limits).unwrap_err();
    assert!(matches!(err, DecodeError::InvalidMagic { .. }));
}

#[test]
fn decode_payload_length_mismatch() {
    let header = PacketHeader::full_snapshot(0, 1, 10);
    let mut buf = [0u8; HEADER_SIZE];
    encode_header(&header, &mut buf).unwrap();
    let limits = Limits::for_testing();
    let err = decode_packet(&buf, &limits).unwrap_err();
    assert!(matches!(err, DecodeError::PayloadLengthMismatch { .. }));
}

#[test]
fn decode_payload_length_mismatch_with_extra_bytes() {
    let header = PacketHeader::full_snapshot(0, 1, 0);
    let mut buf = vec![0u8; HEADER_SIZE + 4];
    encode_header(&header, &mut buf).unwrap();
    let limits = Limits::for_testing();
    let err = decode_packet(&buf, &limits).unwrap_err();
    assert!(matches!(err, DecodeError::PayloadLengthMismatch { .. }));
}

#[test]
fn decode_rejects_invalid_baseline_full() {
    let header = PacketHeader {
        version: VERSION,
        flags: PacketFlags::full_snapshot(),
        schema_hash: 0,
        tick: 1,
        baseline_tick: 1,
        payload_len: 0,
    };
    let mut buf = [0u8; HEADER_SIZE];
    encode_header(&header, &mut buf).unwrap();
    let limits = Limits::for_testing();
    let err = decode_packet(&buf, &limits).unwrap_err();
    assert!(matches!(err, DecodeError::InvalidBaselineTick { .. }));
}

#[test]
fn decode_rejects_invalid_baseline_delta() {
    let header = PacketHeader {
        version: VERSION,
        flags: PacketFlags::delta_snapshot(),
        schema_hash: 0,
        tick: 1,
        baseline_tick: 0,
        payload_len: 0,
    };
    let mut buf = [0u8; HEADER_SIZE];
    encode_header(&header, &mut buf).unwrap();
    let limits = Limits::for_testing();
    let err = decode_packet(&buf, &limits).unwrap_err();
    assert!(matches!(err, DecodeError::InvalidBaselineTick { .. }));
}

#[test]
fn decode_rejects_invalid_flags_reserved_bits() {
    let mut buf = [0u8; HEADER_SIZE];
    buf[0..4].copy_from_slice(&MAGIC.to_le_bytes());
    buf[4..6].copy_from_slice(&VERSION.to_le_bytes());
    let flags = PacketFlags::from_raw(0b101).raw(); // reserved bit set
    buf[6..8].copy_from_slice(&flags.to_le_bytes());
    let limits = Limits::for_testing();
    let err = decode_packet(&buf, &limits).unwrap_err();
    assert!(matches!(err, DecodeError::InvalidFlags { .. }));
}

#[test]
fn decode_accepts_session_init_flags() {
    let mut buf = [0u8; HEADER_SIZE];
    buf[0..4].copy_from_slice(&MAGIC.to_le_bytes());
    buf[4..6].copy_from_slice(&VERSION.to_le_bytes());
    let flags = PacketFlags::session_init().raw();
    buf[6..8].copy_from_slice(&flags.to_le_bytes());
    let limits = Limits::for_testing();
    let packet = decode_packet(&buf, &limits).unwrap();
    assert!(packet.header.flags.is_session_init());
}

#[test]
fn decode_rejects_unsupported_version() {
    let mut buf = [0u8; HEADER_SIZE];
    buf[0..4].copy_from_slice(&MAGIC.to_le_bytes());
    let version = 0u16;
    buf[4..6].copy_from_slice(&version.to_le_bytes());
    let flags = PacketFlags::full_snapshot().raw();
    buf[6..8].copy_from_slice(&flags.to_le_bytes());
    let limits = Limits::for_testing();
    let err = decode_packet(&buf, &limits).unwrap_err();
    assert!(matches!(err, DecodeError::UnsupportedVersion { found: 0 }));
}

#[test]
fn decode_rejects_invalid_varint_len() {
    let header = PacketHeader::full_snapshot(0, 1, 6);
    let mut buf = vec![0u8; HEADER_SIZE + 6];
    encode_header(&header, &mut buf).unwrap();
    let payload = &mut buf[HEADER_SIZE..];
    payload[0] = SectionTag::EntityCreate.raw();
    payload[1..6].copy_from_slice(&[0xFF, 0xFF, 0xFF, 0xFF, 0xFF]);
    let limits = Limits::for_testing();
    let err = decode_packet(&buf, &limits).unwrap_err();
    assert!(matches!(
        err,
        DecodeError::SectionFraming(SectionFramingError::InvalidVarint)
    ));
}

#[test]
fn decode_sections() {
    let mut payload = [0u8; 16];
    let body = [1u8, 2, 3];
    let section_len = encode_section(SectionTag::EntityUpdate, &body, &mut payload).unwrap();

    let header = PacketHeader::full_snapshot(0, 1, section_len as u32);
    let mut buf = vec![0u8; HEADER_SIZE + section_len];
    encode_header(&header, &mut buf).unwrap();
    buf[HEADER_SIZE..HEADER_SIZE + section_len].copy_from_slice(&payload[..section_len]);

    let limits = Limits::for_testing();
    let packet = decode_packet(&buf, &limits).unwrap();
    assert_eq!(packet.sections.len(), 1);
    assert_eq!(packet.sections[0].tag, SectionTag::EntityUpdate);
    assert_eq!(packet.sections[0].body, &body);
}

#[test]
fn decode_enforces_section_limits() {
    let mut payload = [0u8; 8];
    let body = [0u8; 5];
    let section_len = encode_section(SectionTag::EntityCreate, &body, &mut payload).unwrap();

    let header = PacketHeader::full_snapshot(0, 1, section_len as u32);
    let mut buf = vec![0u8; HEADER_SIZE + section_len];
    encode_header(&header, &mut buf).unwrap();
    buf[HEADER_SIZE..HEADER_SIZE + section_len].copy_from_slice(&payload[..section_len]);

    let limits = Limits {
        max_packet_bytes: 4096,
        max_sections: 1,
        max_section_len: 4,
        ..Limits::for_testing()
    };
    let err = decode_packet(&buf, &limits).unwrap_err();
    assert!(matches!(
        err,
        DecodeError::LimitsExceeded {
            kind: LimitKind::SectionLength,
            ..
        }
    ));
}

#[test]
fn session_header_roundtrip_delta() {
    let mut buf = [0u8; SESSION_MAX_HEADER_SIZE];
    let len =
        encode_session_header(&mut buf, SessionFlags::delta_snapshot(), 2, 1, 123).unwrap();
    let decoded = decode_session_header(&buf[..len], 10).unwrap();
    assert_eq!(decoded.tick, 12);
    assert_eq!(decoded.baseline_tick, 11);
    assert_eq!(decoded.payload_len, 123);
}

#[test]
fn session_header_rejects_zero_tick_delta() {
    let mut buf = [0u8; SESSION_MAX_HEADER_SIZE];
    let len =
        encode_session_header(&mut buf, SessionFlags::delta_snapshot(), 0, 1, 10).unwrap();
    let err = decode_session_header(&buf[..len], 1).unwrap_err();
    assert!(matches!(err, DecodeError::InvalidFlags { .. }));
}

#[test]
fn header_const_constructible() {
    let header: PacketHeader = PacketHeader::full_snapshot(0, 0, 0);
    assert_eq!(header.tick, 0);
}

#[test]
fn limits_const_constructible() {
    let limits: Limits = Limits::for_testing();
    assert_eq!(limits.max_packet_bytes, 4096);
}

#[test]
fn v0_flags_reject_bit_two() {
    assert!(!PacketFlags::from_raw(0b101).is_valid_v0());
    assert!(!PacketFlags::from_raw(0b110).is_valid_v0());
    assert!(PacketFlags::from_raw(0b001).is_valid_v0());
}
