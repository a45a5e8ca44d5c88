use sdec::bitstream::{BitError, BitReader, BitVecWriter, BitWriter};

#[test]
fn empty_roundtrip() {
    let writer = BitVecWriter::new();
    let bytes = writer.finish();
    assert!(bytes.is_empty());

    let reader = BitReader::new(&bytes);
    assert!(reader.is_empty());
}

#[test]
fn single_bit_roundtrip() {
    let mut writer = BitVecWriter::new();
    writer.write_bit(true);
    let bytes = writer.finish();

    let mut reader = BitReader::new(&bytes);
    assert!(reader.read_bit().unwrap());
}

#[test]
fn multiple_bits_roundtrip() {
    let mut writer = BitVecWriter::new();
    writer.write_bit(true);
    writer.write_bit(false);
    writer.write_bit(true);
    writer.write_bit(true);
    writer.write_bit(false);
    let bytes = writer.finish();

    let mut reader = BitReader::new(&bytes);
    assert!(reader.read_bit().unwrap());
    assert!(!reader.read_bit().unwrap());
    assert!(reader.read_bit().unwrap());
    assert!(reader.read_bit().unwrap());
    assert!(!reader.read_bit().unwrap());
}

#[test]
fn bits_roundtrip_various_sizes() {
    let test_cases = [
        (0b1010u64, 4u8),
        (0xFFu64, 8u8),
        (0xABCDu64, 16u8),
        (0x1234_5678u64, 32u8),
        (u64::MAX, 64u8),
    ];

    for (value, bits) in test_cases {
        let mut writer = BitVecWriter::new();
        writer.write_bits(value, bits).unwrap();
        let bytes = writer.finish();

        let mut reader = BitReader::new(&bytes);
        let read_value = reader.read_bits(bits).unwrap();
        assert_eq!(
            read_value, value,
            "roundtrip failed for {bits}-bit value {value}"
        );
    }
}

#[test]
fn mixed_roundtrip() {
    let mut writer = BitVecWriter::new();
    writer.write_bit(true);
    writer.write_bits(0b1010, 4).unwrap();
    writer.write_bit(false);
    writer.write_bits(0xFF, 8).unwrap();
    writer.write_bits(42, 7).unwrap();
    let bytes = writer.finish();

    let mut reader = BitReader::new(&bytes);
    assert!(reader.read_bit().unwrap());
    assert_eq!(reader.read_bits(4).unwrap(), 0b1010);
    assert!(!reader.read_bit().unwrap());
    assert_eq!(reader.read_bits(8).unwrap(), 0xFF);
    assert_eq!(reader.read_bits(7).unwrap(), 42);
}

#[test]
fn doctest_example() {
    let mut writer = BitVecWriter::new();
    writer.write_bit(true);
    writer.write_bits(42, 7).unwrap();

    let bytes = writer.finish();

    let mut reader = BitReader::new(&bytes);
    assert!(reader.read_bit().unwrap());
    assert_eq!(reader.read_bits(7).unwrap(), 42);
}

#[test]
fn empty_reader() {
    let reader = BitReader::new(&[]);
    assert!(reader.is_empty());
    assert_eq!(reader.bits_remaining(), 0);
    assert_eq!(reader.bit_position(), 0);
}

#[test]
fn read_from_empty_fails() {
    let mut reader = BitReader::new(&[]);
    let result = reader.read_bool();
    assert!(matches!(
        result,
        Err(BitError::EndOfBuffer {
            requested: 1,
            available: 0
        })
    ));
}

#[test]
fn bits_remaining_single_byte() {
    let reader = BitReader::new(&[0xFF]);
    assert_eq!(reader.bits_remaining(), 8);
    assert!(!reader.is_empty());
}

#[test]
fn bits_remaining_multiple_bytes() {
    let reader = BitReader::new(&[0x00, 0x00, 0x00]);
    assert_eq!(reader.bits_remaining(), 24);
}

#[test]
fn read_bool_true() {
    let mut reader = BitReader::new(&[0b1000_0000]);
    assert!(reader.read_bool().unwrap());
    assert_eq!(reader.bit_position(), 1);
    assert_eq!(reader.bits_remaining(), 7);
}

#[test]
fn read_bool_false() {
    let mut reader = BitReader::new(&[0b0000_0000]);
    assert!(!reader.read_bool().unwrap());
}

#[test]
fn read_all_bits_in_byte() {
    let mut reader = BitReader::new(&[0b1010_0101]);
    assert!(reader.read_bool().unwrap()); // 1
    assert!(!reader.read_bool().unwrap()); // 0
    assert!(reader.read_bool().unwrap()); // 1
    assert!(!reader.read_bool().unwrap()); // 0
    assert!(!reader.read_bool().unwrap()); // 0
    assert!(reader.read_bool().unwrap()); // 1
    assert!(!reader.read_bool().unwrap()); // 0
    assert!(reader.read_bool().unwrap()); // 1
    assert!(reader.is_empty());
}

#[test]
fn read_bits_zero() {
    let mut reader = BitReader::new(&[0xFF]);
    assert_eq!(reader.read_bits(0).unwrap(), 0);
    assert_eq!(reader.bit_position(), 0); // no bits consumed
}

#[test]
fn read_bits_partial_byte() {
    let mut reader = BitReader::new(&[0b1010_1100]);
    // Read first 4 bits: 1010 = 10
    assert_eq!(reader.read_bits(4).unwrap(), 0b1010);
    assert_eq!(reader.bit_position(), 4);
    // Read next 4 bits: 1100 = 12
    assert_eq!(reader.read_bits(4).unwrap(), 0b1100);
    assert!(reader.is_empty());
}

#[test]
fn read_bits_full_byte() {
    let mut reader = BitReader::new(&[0xAB]);
    assert_eq!(reader.read_bits(8).unwrap(), 0xAB);
    assert!(reader.is_empty());
}

#[test]
fn read_bits_across_bytes() {
    let mut reader = BitReader::new(&[0b1111_0000, 0b0000_1111]);
    // Read 12 bits: 1111_0000_0000 = 0xF00
    assert_eq!(reader.read_bits(12).unwrap(), 0b1111_0000_0000);
    assert_eq!(reader.bits_remaining(), 4);
}

#[test]
fn read_bits_too_many_requested() {
    let mut reader = BitReader::new(&[0xFF]);
    let result = reader.read_bits(16);
    assert!(matches!(
        result,
        Err(BitError::EndOfBuffer {
            requested: 16,
            available: 8
        })
    ));
}

#[test]
fn read_bits_invalid_count() {
    let mut reader = BitReader::new(&[0xFF; 16]);
    let result = reader.read_bits(65);
    assert!(matches!(
        result,
        Err(BitError::InvalidBitCount {
            bits: 65,
            max_bits: 64
        })
    ));
}

#[test]
fn read_bits_max_valid() {
    let data = [0xFF; 8];
    let mut reader = BitReader::new(&data);
    assert_eq!(reader.read_bits(64).unwrap(), u64::MAX);
}

#[test]
fn bounded_overflow() {
    let mut buf = [0u8; 1];
    let mut writer = BitWriter::new(&mut buf);
    writer.write_bits(0xFF, 8).unwrap();
    let err = writer.write_bit(true).unwrap_err();
    assert!(matches!(err, BitError::WriteOverflow { .. }));
}

#[test]
fn bounded_write_and_finish() {
    let mut buf = [0u8; 2];
    let mut writer = BitWriter::new(&mut buf);
    writer.write_bits(0b1010, 4).unwrap();
    writer.align_to_byte().unwrap();
    writer.write_u8_aligned(0xAB).unwrap();
    let bytes = writer.finish();
    assert_eq!(bytes, 2);
    assert_eq!(&buf[..2], &[0b1010_0000, 0xAB]);
}

#[test]
fn vec_writer_roundtrip_bits() {
    let mut writer = BitVecWriter::new();
    writer.write_bits(0b1010, 4).unwrap();
    writer.write_bits(0xAB, 8).unwrap();
    let bytes = writer.finish();
    assert_eq!(bytes, vec![0b1010_1010, 0b1011_0000]);
}

#[test]
fn vec_writer_align() {
    let mut writer = BitVecWriter::new();
    writer.write_bits(0b1010, 4).unwrap();
    writer.align_to_byte();
    writer.write_u8_aligned(0xFF).unwrap();
    let bytes = writer.finish();
    assert_eq!(bytes, vec![0b1010_0000, 0xFF]);
}

#[test]
fn vec_writer_varint() {
    let mut writer = BitVecWriter::new();
    writer.align_to_byte();
    writer.write_varu32(300).unwrap();
    let bytes = writer.finish();
    assert_eq!(bytes, vec![0xAC, 0x02]);
}

#[test]
fn vec_writer_zigzag() {
    let mut writer = BitVecWriter::new();
    writer.align_to_byte();
    writer.write_vars32(-1).unwrap();
    let bytes = writer.finish();
    assert_eq!(bytes, vec![0x01]);
}

#[test]
fn bounded_writer_roundtrip_bits() {
    let mut buf = [0u8; 8];
    let mut writer = BitWriter::new(&mut buf);
    writer.write_bits(0b1010, 4).unwrap();
    writer.write_bits(0xAB, 8).unwrap();
    let bytes_used = writer.finish();

    let mut reader = BitReader::new(&buf[..bytes_used]);
    assert_eq!(reader.read_bits(4).unwrap(), 0b1010);
    assert_eq!(reader.read_bits(8).unwrap(), 0xAB);
}

#[test]
fn vec_writer_roundtrip_mixed() {
    let mut writer = BitVecWriter::new();
    writer.write_bit(true);
    writer.write_bits(0b1010, 4).unwrap();
    writer.align_to_byte();
    writer.write_u16_aligned(0xBEEF).unwrap();
    writer.write_varu32(300).unwrap();
    writer.write_vars32(-1).unwrap();
    let bytes = writer.finish();

    let mut reader = BitReader::new(&bytes);
    assert!(reader.read_bit().unwrap());
    assert_eq!(reader.read_bits(4).unwrap(), 0b1010);
    reader.align_to_byte().unwrap();
    assert_eq!(reader.read_u16_aligned().unwrap(), 0xBEEF);
    assert_eq!(reader.read_varu32().unwrap(), 300);
    assert_eq!(reader.read_vars32().unwrap(), -1);
}

#[test]
fn reader_is_const_constructible() {
    let reader: BitReader<'static> = BitReader::new(&[1, 2, 3]);
    assert_eq!(reader.bits_remaining(), 24);
}

#[test]
fn writer_leaves_bytes_after_the_write_alone() {
    let mut buf = [0xAAu8; 4];
    let mut writer = BitWriter::new(&mut buf);
    writer.write_u8_aligned(0x11).unwrap();
    writer.write_bits(0b1, 1).unwrap();
    let err = writer.write_u8_aligned(0x22);
    assert!(err.is_err());
    let n = writer.finish();
    assert_eq!(n, 2);
    // The written bit is set; the other bits of that byte and the later
    // bytes keep what was there.
    assert_eq!(buf, [0x11, 0xAA, 0xAA, 0xAA]);
}
