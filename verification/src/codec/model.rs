//! What the bit writer and reader do, as functions on bit sequences, and the
//! field codecs built on them.
use super::error::{CodecError, CodecResult, ValueReason};
use crate::bitstream::bits::{
    bits_of, bits_value, cap_bits, fits_bits, le_bytes, pad_len, padded, u64_bits, unzigzag,
    varu32_bytes, varu32_parse, zigzag,
};
use crate::bitstream::{BitError, BitReader, BitWriter};
use crate::schema::{ComponentId, FieldCodec, FieldDef};
use vstd::arithmetic::power2::pow2;
use vstd::prelude::*;

verus! {

/// A decoded or to-be-encoded field value.
#[derive(Debug, Clone, Copy, PartialEq, Eq, Structural)]
pub enum FieldValue {
    Bool(bool),
    UInt(u64),
    SInt(i64),
    VarUInt(u64),
    VarSInt(i64),
    FixedPoint(i64),
}

// ---------------------------------------------------------------------------
// Writer steps: `w` is what was written, `cap` the capacity in bits.
/// Free bits.
pub open spec fn room(w: Seq<bool>, cap: nat) -> int {
    cap - w.len()
}

/// Writing one bit.
pub open spec fn w_bit(w: Seq<bool>, cap: nat, b: bool) -> Result<Seq<bool>, BitError> {
    if room(w, cap) >= 1 {
        Ok(w.push(b))
    } else {
        Err(BitError::WriteOverflow { attempted: 1, available: room(w, cap) as usize })
    }
}

/// Writing the low `n` bits of `v`.
pub open spec fn w_bits(w: Seq<bool>, cap: nat, v: u64, n: u8) -> Result<Seq<bool>, BitError> {
    if n > 64 {
        Err(BitError::InvalidBitCount { bits: n as usize, max_bits: 64 })
    } else if n == 0 {
        Ok(w)
    } else if !fits_bits(v, n as nat) {
        Err(BitError::ValueOutOfRange { value: v, bits: n as usize })
    } else if n > room(w, cap) {
        Err(BitError::WriteOverflow { attempted: n as usize, available: room(w, cap) as usize })
    } else {
        Ok(w + u64_bits(v, n as nat))
    }
}

/// Padding to the next byte boundary.
pub open spec fn w_align(w: Seq<bool>, cap: nat) -> Result<Seq<bool>, BitError> {
    if pad_len(w.len()) <= room(w, cap) {
        Ok(padded(w))
    } else {
        Err(
            BitError::WriteOverflow {
                attempted: pad_len(w.len()) as usize,
                available: room(w, cap) as usize,
            },
        )
    }
}

/// Writing `n` little-endian bytes at a byte boundary.
pub open spec fn w_le(w: Seq<bool>, cap: nat, v: u64, n: nat) -> Result<Seq<bool>, BitError> {
    if w.len() % 8 != 0 {
        Err(BitError::MisalignedAccess { bit_position: w.len() as usize })
    } else if room(w, cap) < 8 * n {
        Err(BitError::WriteOverflow { attempted: (8 * n) as usize, available: room(w, cap) as usize })
    } else {
        Ok(w + bits_of(le_bytes(v as nat, n)))
    }
}

/// Writing a varint at a byte boundary.
pub open spec fn w_varu32(w: Seq<bool>, cap: nat, v: u32) -> Result<Seq<bool>, BitError> {
    if w.len() % 8 != 0 {
        Err(BitError::MisalignedAccess { bit_position: w.len() as usize })
    } else if room(w, cap) < 8 * varu32_bytes(v).len() {
        Err(BitError::WriteOverflow { attempted: 8, available: (room(w, cap) % 8) as usize })
    } else {
        Ok(w + bits_of(varu32_bytes(v)))
    }
}

/// A bit-level error as a codec error.
pub open spec fn lift<T>(r: Result<T, BitError>) -> Result<T, CodecError> {
    match r {
        Ok(v) => Ok(v),
        Err(e) => Err(CodecError::Bitstream(e)),
    }
}

/// `r`, then `f` on its value.
pub open spec fn then_w(
    r: Result<Seq<bool>, BitError>,
    f: spec_fn(Seq<bool>) -> Result<Seq<bool>, BitError>,
) -> Result<Seq<bool>, BitError> {
    match r {
        Ok(w) => f(w),
        Err(e) => Err(e),
    }
}

// ---------------------------------------------------------------------------
// Reader steps: `d` is the data, `p` the bit position.
/// Readable bits of `d`.
pub open spec fn rcap(d: Seq<u8>) -> nat {
    cap_bits(d.len())
}

/// Reading one bit.
pub open spec fn r_bit(d: Seq<u8>, p: nat) -> Result<(bool, nat), BitError> {
    if rcap(d) - p >= 1 {
        Ok((bits_of(d)[p as int], p + 1))
    } else {
        Err(BitError::EndOfBuffer { requested: 1, available: 0 })
    }
}

/// Reading `n` bits as an unsigned value.
pub open spec fn r_bits(d: Seq<u8>, p: nat, n: u8) -> Result<(u64, nat), BitError> {
    if n > 64 {
        Err(BitError::InvalidBitCount { bits: n as usize, max_bits: 64 })
    } else if n != 0 && n > rcap(d) - p {
        Err(BitError::EndOfBuffer { requested: n as usize, available: (rcap(d) - p) as usize })
    } else {
        Ok((bits_value(bits_of(d).subrange(p as int, p + n)) as u64, p + n as nat))
    }
}

/// Skipping to the next byte boundary.
pub open spec fn r_align(d: Seq<u8>, p: nat) -> Result<nat, BitError> {
    if pad_len(p) <= rcap(d) - p {
        Ok(p + pad_len(p))
    } else {
        Err(BitError::EndOfBuffer { requested: pad_len(p) as usize, available: (rcap(d) - p) as usize })
    }
}

/// Reading `n` little-endian bytes at a byte boundary.
pub open spec fn r_le(d: Seq<u8>, p: nat, n: nat) -> Result<(nat, nat), BitError> {
    if p % 8 != 0 {
        Err(BitError::MisalignedAccess { bit_position: p as usize })
    } else if rcap(d) - p < 8 * n {
        Err(BitError::EndOfBuffer { requested: (8 * n) as usize, available: (rcap(d) - p) as usize })
    } else {
        Ok(
            (
                crate::bitstream::bits::le_value(d.subrange((p / 8) as int, (p / 8 + n) as int)),
                p + 8 * n,
            ),
        )
    }
}

/// Reading a varint at a byte boundary.
pub open spec fn r_varu32(d: Seq<u8>, p: nat) -> Result<(u32, nat), BitError> {
    if p % 8 != 0 {
        Err(BitError::MisalignedAccess { bit_position: p as usize })
    } else {
        match varu32_parse(d, p, rcap(d), 0) {
            Ok((v, e)) => Ok((v as u32, e)),
            Err(e) => Err(e),
        }
    }
}

// ---------------------------------------------------------------------------
// Field codecs.
/// Bits needed for values `0..=range`.
pub open spec fn required_bits_spec(range: nat) -> nat
    decreases range,
{
    if range == 0 {
        0
    } else {
        1 + required_bits_spec(range / 2)
    }
}

/// The distance of a fixed-point value from the minimum.
pub open spec fn fp_offset(min_q: i64, v: i64) -> u64 {
    (v - min_q) as u64
}

/// The bits a fixed-point field takes.
pub open spec fn fp_bits(min_q: i64, max_q: i64) -> u8 {
    required_bits_spec((max_q - min_q) as u64 as nat) as u8
}

/// Name of a codec, as used in type mismatch errors.
pub open spec fn codec_name_spec(c: FieldCodec) -> &'static str {
    match c {
        FieldCodec::Bool => "bool",
        FieldCodec::UInt { .. } => "uint",
        FieldCodec::SInt { .. } => "sint",
        FieldCodec::VarUInt => "varuint",
        FieldCodec::VarSInt => "varsint",
        FieldCodec::FixedPoint(_) => "fixed-point",
    }
}

/// Name of a value's kind, as used in type mismatch errors.
pub open spec fn value_name_spec(v: FieldValue) -> &'static str {
    match v {
        FieldValue::Bool(_) => "bool",
        FieldValue::UInt(_) => "uint",
        FieldValue::SInt(_) => "sint",
        FieldValue::VarUInt(_) => "varuint",
        FieldValue::VarSInt(_) => "varsint",
        FieldValue::FixedPoint(_) => "fixed-point",
    }
}

/// The value as `bits`-bit two's complement, or `None` when out of range.
/// Widths of 64 and more keep the value's 64-bit pattern.
pub open spec fn sint_pattern(bits: u8, v: i64) -> Option<u64> {
    if bits >= 64 {
        Some(v as u64)
    } else if bits == 0 {
        if v == 0 {
            Some(0)
        } else {
            None
        }
    } else if v < -(pow2((bits - 1) as nat) as int) || v >= pow2((bits - 1) as nat) {
        None
    } else if v < 0 {
        Some((v + pow2(bits as nat)) as u64)
    } else {
        Some(v as u64)
    }
}

/// The signed value of a `bits`-bit two's complement pattern.
pub open spec fn sint_value(bits: u8, raw: u64) -> i64 {
    if bits >= 64 {
        raw as i64
    } else if bits == 0 {
        0
    } else if raw < pow2((bits - 1) as nat) {
        raw as i64
    } else {
        (raw - pow2(bits as nat)) as i64
    }
}

/// Encoding one field value after what was written.
pub open spec fn enc_field(w: Seq<bool>, cap: nat, cid: ComponentId, f: FieldDef, v: FieldValue) -> Result<
    Seq<bool>,
    CodecError,
> {
    let bad = |reason: ValueReason| CodecError::InvalidValue { component: cid, field: f.id, reason };
    match (f.codec, v) {
        (FieldCodec::Bool, FieldValue::Bool(b)) => lift(w_bit(w, cap, b)),
        (FieldCodec::UInt { bits }, FieldValue::UInt(x)) => if !fits_bits(x, bits as nat) {
            Err(bad(ValueReason::UnsignedOutOfRange { bits, value: x }))
        } else {
            lift(w_bits(w, cap, x, bits))
        },
        (FieldCodec::SInt { bits }, FieldValue::SInt(x)) => match sint_pattern(bits, x) {
            None => Err(bad(ValueReason::SignedOutOfRange { bits, value: x })),
            Some(p) => lift(w_bits(w, cap, p, bits)),
        },
        (FieldCodec::VarUInt, FieldValue::VarUInt(x)) => if x > u32::MAX {
            Err(bad(ValueReason::VarUIntOutOfRange { value: x }))
        } else {
            match w_align(w, cap) {
                Ok(w1) => lift(w_varu32(w1, cap, x as u32)),
                Err(e) => Err(CodecError::Bitstream(e)),
            }
        },
        (FieldCodec::VarSInt, FieldValue::VarSInt(x)) => if x < i32::MIN || x > i32::MAX {
            Err(bad(ValueReason::VarSIntOutOfRange { value: x }))
        } else {
            match w_align(w, cap) {
                Ok(w1) => lift(w_varu32(w1, cap, zigzag(x as i32))),
                Err(e) => Err(CodecError::Bitstream(e)),
            }
        },
        (FieldCodec::FixedPoint(fp), FieldValue::FixedPoint(x)) => if x < fp.min_q || x > fp.max_q {
            Err(
                bad(
                    ValueReason::FixedPointOutOfRange { min_q: fp.min_q, max_q: fp.max_q, value: x },
                ),
            )
        } else {
            lift(w_bits(w, cap, fp_offset(fp.min_q, x), fp_bits(fp.min_q, fp.max_q)))
        },
        _ => Err(
            bad(
                ValueReason::TypeMismatch {
                    expected: codec_name_spec(f.codec),
                    found: value_name_spec(v),
                },
            ),
        ),
    }
}

/// Decoding one field value at bit `p`.
pub open spec fn dec_field(d: Seq<u8>, p: nat, cid: ComponentId, f: FieldDef) -> Result<
    (FieldValue, nat),
    CodecError,
> {
    match f.codec {
        FieldCodec::Bool => match r_bit(d, p) {
            Ok((b, p1)) => Ok((FieldValue::Bool(b), p1)),
            Err(e) => Err(CodecError::Bitstream(e)),
        },
        FieldCodec::UInt { bits } => match r_bits(d, p, bits) {
            Ok((x, p1)) => Ok((FieldValue::UInt(x), p1)),
            Err(e) => Err(CodecError::Bitstream(e)),
        },
        FieldCodec::SInt { bits } => match r_bits(d, p, bits) {
            Ok((x, p1)) => Ok((FieldValue::SInt(sint_value(bits, x)), p1)),
            Err(e) => Err(CodecError::Bitstream(e)),
        },
        FieldCodec::VarUInt => match r_align(d, p) {
            Err(e) => Err(CodecError::Bitstream(e)),
            Ok(p1) => match r_varu32(d, p1) {
                Ok((x, p2)) => Ok((FieldValue::VarUInt(x as u64), p2)),
                Err(e) => Err(CodecError::Bitstream(e)),
            },
        },
        FieldCodec::VarSInt => match r_align(d, p) {
            Err(e) => Err(CodecError::Bitstream(e)),
            Ok(p1) => match r_varu32(d, p1) {
                Ok((x, p2)) => Ok((FieldValue::VarSInt(unzigzag(x) as i64), p2)),
                Err(e) => Err(CodecError::Bitstream(e)),
            },
        },
        FieldCodec::FixedPoint(fp) => {
            let bits = fp_bits(fp.min_q, fp.max_q);
            match r_bits(d, p, bits) {
                Err(e) => Err(CodecError::Bitstream(e)),
                Ok((off, p1)) => {
                    let value = fp.min_q + off;
                    if value > fp.max_q {
                        Err(
                            CodecError::InvalidValue {
                                component: cid,
                                field: f.id,
                                reason: ValueReason::FixedPointOutOfRange {
                                    min_q: fp.min_q,
                                    max_q: fp.max_q,
                                    value: value as i64,
                                },
                            },
                        )
                    } else {
                        Ok((FieldValue::FixedPoint(value as i64), p1))
                    }
                },
            }
        },
    }
}

/// Bits needed to hold every value in `0..=range`.
pub fn required_bits(range: u64) -> (r: u8)
    ensures
        r == required_bits_spec(range as nat),
        r <= 64,
        (range as nat) < pow2(r as nat),
{
    let mut rest = range;
    let mut n: u8 = 0;
    proof {
        lemma_required_bits(range as nat);
    }
    while rest > 0
        invariant
            n + required_bits_spec(rest as nat) == required_bits_spec(range as nat),
            required_bits_spec(range as nat) <= 64,
        decreases rest,
    {
        proof {
            lemma_required_bits(rest as nat);
        }
        rest = rest / 2;
        n = n + 1;
    }
    n
}

/// Facts about `required_bits_spec`.
pub proof fn lemma_required_bits(range: nat)
    ensures
        range < pow2(required_bits_spec(range)),
        range <= u64::MAX ==> required_bits_spec(range) <= 64,
        range > 0 ==> pow2((required_bits_spec(range) - 1) as nat) <= range,
    decreases range,
{
    vstd::arithmetic::power2::lemma2_to64();
    if range > 0 {
        lemma_required_bits(range / 2);
        let k = required_bits_spec(range / 2);
        vstd::arithmetic::power2::lemma_pow2_unfold(k + 1);
        if range / 2 > 0 {
            vstd::arithmetic::power2::lemma_pow2_unfold(k);
        }
        if range <= u64::MAX && k + 1 > 64 {
            vstd::arithmetic::power2::lemma_pow2_strictly_increases(64, k);
        }
    }
}

/// Name of a codec for error reports.
pub fn codec_name(c: FieldCodec) -> (r: &'static str)
    ensures
        r == codec_name_spec(c),
{
    match c {
        FieldCodec::Bool => "bool",
        FieldCodec::UInt { .. } => "uint",
        FieldCodec::SInt { .. } => "sint",
        FieldCodec::VarUInt => "varuint",
        FieldCodec::VarSInt => "varsint",
        FieldCodec::FixedPoint(_) => "fixed-point",
    }
}

/// Name of a value's kind for error reports.
pub fn value_name(v: FieldValue) -> (r: &'static str)
    ensures
        r == value_name_spec(v),
{
    match v {
        FieldValue::Bool(_) => "bool",
        FieldValue::UInt(_) => "uint",
        FieldValue::SInt(_) => "sint",
        FieldValue::VarUInt(_) => "varuint",
        FieldValue::VarSInt(_) => "varsint",
        FieldValue::FixedPoint(_) => "fixed-point",
    }
}

fn pow2_u64(n: u8) -> (r: u64)
    requires
        n < 64,
    ensures
        r == pow2(n as nat),
{
    proof {
        vstd::bits::lemma_u64_pow2_no_overflow(n as nat);
        vstd::bits::lemma_u64_shl_is_mul(1, n as u64);
    }
    1u64 << n
}

/// Two's complement pattern of `value` in `bits` bits, or `None` when it
/// does not fit.
pub fn sint_to_pattern(bits: u8, value: i64) -> (r: Option<u64>)
    ensures
        r == sint_pattern(bits, value),
{
    if bits >= 64 {
        return Some(value as u64);
    }
    if bits == 0 {
        return if value == 0 {
            Some(0)
        } else {
            None
        };
    }
    let half = pow2_u64(bits - 1);
    let full = pow2_u64(bits);
    proof {
        vstd::arithmetic::power2::lemma_pow2_unfold(bits as nat);
    }
    let v = value as i128;
    if v < -(half as i128) || v >= half as i128 {
        return None;
    }
    if value < 0 {
        Some((v + full as i128) as u64)
    } else {
        Some(value as u64)
    }
}

/// Signed value of a `bits`-bit two's complement pattern.
pub fn sint_from_pattern(bits: u8, raw: u64) -> (r: i64)
    requires
        bits < 64 ==> (raw as nat) < pow2(bits as nat),
    ensures
        r == sint_value(bits, raw),
{
    if bits >= 64 {
        return raw as i64;
    }
    if bits == 0 {
        return 0;
    }
    let half = pow2_u64(bits - 1);
    let full = pow2_u64(bits);
    proof {
        vstd::arithmetic::power2::lemma_pow2_unfold(bits as nat);
    }
    if raw < half {
        raw as i64
    } else {
        (raw as i128 - full as i128) as i64
    }
}

/// Writes one field value.
pub fn write_field_value(
    cid: ComponentId,
    field: FieldDef,
    value: FieldValue,
    writer: &mut BitWriter,
) -> (r: CodecResult<()>)
    ensures
        final(writer).same_buffer(old(writer)),
        final(final(writer).target())@ == final(old(writer).target())@,
        match enc_field(old(writer).written(), old(writer).capacity(), cid, field, value) {
            Ok(w) => r is Ok && final(writer).written() == w,
            Err(e) => r == Err::<(), CodecError>(e),
        },
{
    let bad_id = field.id;
    match (field.codec, value) {
        (FieldCodec::Bool, FieldValue::Bool(b)) => {
            match writer.write_bit(b) {
                Ok(()) => Ok(()),
                Err(e) => Err(CodecError::Bitstream(e)),
            }
        },
        (FieldCodec::UInt { bits }, FieldValue::UInt(x)) => {
            if bits < 64 {
                let limit = pow2_u64(bits);
                if x >= limit {
                    return Err(
                        CodecError::InvalidValue {
                            component: cid,
                            field: bad_id,
                            reason: ValueReason::UnsignedOutOfRange { bits, value: x },
                        },
                    );
                }
            }
            match writer.write_bits(x, bits) {
                Ok(()) => Ok(()),
                Err(e) => Err(CodecError::Bitstream(e)),
            }
        },
        (FieldCodec::SInt { bits }, FieldValue::SInt(x)) => {
            match sint_to_pattern(bits, x) {
                None => Err(
                    CodecError::InvalidValue {
                        component: cid,
                        field: bad_id,
                        reason: ValueReason::SignedOutOfRange { bits, value: x },
                    },
                ),
                Some(p) => match writer.write_bits(p, bits) {
                    Ok(()) => Ok(()),
                    Err(e) => Err(CodecError::Bitstream(e)),
                },
            }
        },
        (FieldCodec::VarUInt, FieldValue::VarUInt(x)) => {
            if x > 0xFFFF_FFFFu64 {
                return Err(
                    CodecError::InvalidValue {
                        component: cid,
                        field: bad_id,
                        reason: ValueReason::VarUIntOutOfRange { value: x },
                    },
                );
            }
            if let Err(e) = writer.align_to_byte() {
                return Err(CodecError::Bitstream(e));
            }
            match writer.write_varu32(x as u32) {
                Ok(()) => Ok(()),
                Err(e) => Err(CodecError::Bitstream(e)),
            }
        },
        (FieldCodec::VarSInt, FieldValue::VarSInt(x)) => {
            if x < -2147483648i64 || x > 2147483647i64 {
                return Err(
                    CodecError::InvalidValue {
                        component: cid,
                        field: bad_id,
                        reason: ValueReason::VarSIntOutOfRange { value: x },
                    },
                );
            }
            if let Err(e) = writer.align_to_byte() {
                return Err(CodecError::Bitstream(e));
            }
            match writer.write_vars32(x as i32) {
                Ok(()) => Ok(()),
                Err(e) => Err(CodecError::Bitstream(e)),
            }
        },
        (FieldCodec::FixedPoint(fp), FieldValue::FixedPoint(x)) => {
            if x < fp.min_q || x > fp.max_q {
                return Err(
                    CodecError::InvalidValue {
                        component: cid,
                        field: bad_id,
                        reason: ValueReason::FixedPointOutOfRange {
                            min_q: fp.min_q,
                            max_q: fp.max_q,
                            value: x,
                        },
                    },
                );
            }
            let offset = ((x as i128) - (fp.min_q as i128)) as u64;
            let range = ((fp.max_q as i128) - (fp.min_q as i128)) as u64;
            let bits = required_bits(range);
            if bits > 0 {
                match writer.write_bits(offset, bits) {
                    Ok(()) => Ok(()),
                    Err(e) => Err(CodecError::Bitstream(e)),
                }
            } else {
                assert(old(writer).written() == final(writer).written());
                Ok(())
            }
        },
        _ => Err(
            CodecError::InvalidValue {
                component: cid,
                field: bad_id,
                reason: ValueReason::TypeMismatch {
                    expected: codec_name(field.codec),
                    found: value_name(value),
                },
            },
        ),
    }
}

/// Reads one field value.
pub fn read_field_value(cid: ComponentId, field: FieldDef, reader: &mut BitReader) -> (r: CodecResult<
    FieldValue,
>)
    ensures
        final(reader).data() == old(reader).data(),
        match dec_field(old(reader).data(), old(reader).pos(), cid, field) {
            Ok((v, p)) => r == Ok::<FieldValue, CodecError>(v) && final(reader).pos() == p,
            Err(e) => r == Err::<FieldValue, CodecError>(e),
        },
{
    match field.codec {
        FieldCodec::Bool => match reader.read_bit() {
            Ok(b) => Ok(FieldValue::Bool(b)),
            Err(e) => Err(CodecError::Bitstream(e)),
        },
        FieldCodec::UInt { bits } => match reader.read_bits(bits) {
            Ok(x) => Ok(FieldValue::UInt(x)),
            Err(e) => Err(CodecError::Bitstream(e)),
        },
        FieldCodec::SInt { bits } => {
            let ghost s = old(reader).bits().subrange(
                old(reader).pos() as int,
                old(reader).pos() + bits,
            );
            match reader.read_bits(bits) {
                Ok(x) => {
                    proof {
                        assert(s.len() == bits);
                        crate::bitstream::bits::lemma_bits_value_bound(s);
                    }
                    Ok(FieldValue::SInt(sint_from_pattern(bits, x)))
                },
                Err(e) => Err(CodecError::Bitstream(e)),
            }
        },
        FieldCodec::VarUInt => {
            if let Err(e) = reader.align_to_byte() {
                return Err(CodecError::Bitstream(e));
            }
            match reader.read_varu32() {
                Ok(x) => Ok(FieldValue::VarUInt(x as u64)),
                Err(e) => Err(CodecError::Bitstream(e)),
            }
        },
        FieldCodec::VarSInt => {
            if let Err(e) = reader.align_to_byte() {
                return Err(CodecError::Bitstream(e));
            }
            match reader.read_vars32() {
                Ok(x) => Ok(FieldValue::VarSInt(x as i64)),
                Err(e) => Err(CodecError::Bitstream(e)),
            }
        },
        FieldCodec::FixedPoint(fp) => {
            let range = ((fp.max_q as i128) - (fp.min_q as i128)) as u64;
            let bits = required_bits(range);
            let ghost s = old(reader).bits().subrange(
                old(reader).pos() as int,
                old(reader).pos() + bits,
            );
            let offset = if bits == 0 {
                let _ = reader.read_bits(0);
                assert(s =~= Seq::<bool>::empty());
                0
            } else {
                match reader.read_bits(bits) {
                    Ok(x) => x,
                    Err(e) => {
                        return Err(CodecError::Bitstream(e));
                    },
                }
            };
            let value = (fp.min_q as i128) + (offset as i128);
            if value > fp.max_q as i128 {
                return Err(
                    CodecError::InvalidValue {
                        component: cid,
                        field: field.id,
                        reason: ValueReason::FixedPointOutOfRange {
                            min_q: fp.min_q,
                            max_q: fp.max_q,
                            value: value as i64,
                        },
                    },
                );
            }
            Ok(FieldValue::FixedPoint(value as i64))
        },
    }
}

} // verus!
