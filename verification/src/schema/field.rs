//! Field codecs, change policies and field definitions.
use super::ids::FieldId;
use vstd::prelude::*;

verus! {

/// Fixed-point quantization: values are integers `q` with `min_q <= q <= max_q`,
/// standing for `q / scale`.
#[derive(Debug, Clone, Copy, PartialEq, Eq, Structural)]
pub struct FixedPoint {
    pub min_q: i64,
    pub max_q: i64,
    pub scale: u32,
}

impl FixedPoint {
    /// Creates a fixed-point description.
    pub fn new(min_q: i64, max_q: i64, scale: u32) -> (r: Self)
        ensures
            r == (FixedPoint { min_q, max_q, scale }),
    {
        FixedPoint { min_q, max_q, scale }
    }
}

/// How a field is encoded on the wire.
#[derive(Debug, Clone, Copy, PartialEq, Eq, Structural)]
pub enum FieldCodec {
    /// One bit.
    Bool,
    /// Unsigned integer in a fixed number of bits.
    UInt { bits: u8 },
    /// Two's complement integer in a fixed number of bits.
    SInt { bits: u8 },
    /// Byte-aligned LEB128 varint of a `u32`.
    VarUInt,
    /// Byte-aligned zigzag varint of an `i32`.
    VarSInt,
    /// Quantized value offset from its minimum.
    FixedPoint(FixedPoint),
}

impl FieldCodec {
    /// Boolean codec.
    pub fn bool() -> (r: Self)
        ensures
            r == FieldCodec::Bool,
    {
        FieldCodec::Bool
    }

    /// Unsigned integer codec with `bits` bits.
    pub fn uint(bits: u8) -> (r: Self)
        ensures
            r == (FieldCodec::UInt { bits }),
    {
        FieldCodec::UInt { bits }
    }

    /// Signed integer codec with `bits` bits.
    pub fn sint(bits: u8) -> (r: Self)
        ensures
            r == (FieldCodec::SInt { bits }),
    {
        FieldCodec::SInt { bits }
    }

    /// Unsigned varint codec.
    pub fn var_uint() -> (r: Self)
        ensures
            r == FieldCodec::VarUInt,
    {
        FieldCodec::VarUInt
    }

    /// Signed varint codec.
    pub fn var_sint() -> (r: Self)
        ensures
            r == FieldCodec::VarSInt,
    {
        FieldCodec::VarSInt
    }

    /// Fixed-point codec.
    pub fn fixed_point(min_q: i64, max_q: i64, scale: u32) -> (r: Self)
        ensures
            r == FieldCodec::FixedPoint(FixedPoint { min_q, max_q, scale }),
    {
        FieldCodec::FixedPoint(FixedPoint::new(min_q, max_q, scale))
    }
}

/// When a field counts as changed for delta encoding.
#[derive(Debug, Clone, Copy, PartialEq, Eq, Structural)]
pub enum ChangePolicy {
    /// Any difference counts.
    Always,
    /// Quantized values must differ by more than the threshold.
    Threshold { threshold_q: u32 },
}

/// A field of a component.
#[derive(Debug, Clone, Copy, PartialEq, Eq, Structural)]
pub struct FieldDef {
    pub id: FieldId,
    pub codec: FieldCodec,
    pub change: ChangePolicy,
}

impl FieldDef {
    /// A field that counts every difference as a change.
    pub fn new(id: FieldId, codec: FieldCodec) -> (r: Self)
        ensures
            r == (FieldDef { id, codec, change: ChangePolicy::Always }),
    {
        FieldDef { id, codec, change: ChangePolicy::Always }
    }

    /// A field with a change threshold.
    pub fn with_threshold(id: FieldId, codec: FieldCodec, threshold_q: u32) -> (r: Self)
        ensures
            r == (FieldDef { id, codec, change: ChangePolicy::Threshold { threshold_q } }),
    {
        FieldDef { id, codec, change: ChangePolicy::Threshold { threshold_q } }
    }

    /// The same field with another change policy.
    pub fn change(self, change: ChangePolicy) -> (r: Self)
        ensures
            r == (FieldDef { id: self.id, codec: self.codec, change }),
    {
        FieldDef { id: self.id, codec: self.codec, change }
    }
}

} // verus!
