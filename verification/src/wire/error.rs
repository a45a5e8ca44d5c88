//! Error types for wire format operations.
use crate::text::{decimal, hex_digits, push_decimal, push_hex};
use vstd::prelude::*;
use vstd::string::StringExecFns;

verus! {

/// High-level decode errors for wire framing.
#[derive(Debug, Clone, PartialEq, Eq)]
#[non_exhaustive]
pub enum DecodeError {
    /// Packet is too small to contain the required header.
    PacketTooSmall { actual: usize, required: usize },
    /// Invalid magic number in packet header.
    InvalidMagic { found: u32 },
    /// Unsupported wire version.
    UnsupportedVersion { found: u16 },
    /// Invalid flags combination.
    InvalidFlags { flags: u16 },
    /// Invalid baseline tick for the packet kind.
    InvalidBaselineTick { baseline_tick: u32, flags: u16 },
    /// Payload length mismatch.
    PayloadLengthMismatch { header_len: u32, actual_len: usize },
    /// Unknown section tag encountered.
    UnknownSectionTag { tag: u8 },
    /// Limits exceeded.
    LimitsExceeded { kind: LimitKind, limit: usize, actual: usize },
    /// Section framing error.
    SectionFraming(SectionFramingError),
}

/// Specific wire limits that can be exceeded.
#[derive(Debug, Clone, Copy, PartialEq, Eq)]
pub enum LimitKind {
    PacketBytes,
    SectionCount,
    SectionLength,
}

/// Errors that can occur while framing sections.
#[derive(Debug, Clone, PartialEq, Eq)]
pub enum SectionFramingError {
    InvalidVarint,
    LengthOverflow { value: u64 },
    Truncated { needed: usize, available: usize },
}

/// Errors that can occur during encoding.
#[derive(Debug, Clone, PartialEq, Eq)]
pub enum EncodeError {
    BufferTooSmall { needed: usize, available: usize },
    LengthOverflow { length: usize },
}

impl LimitKind {
    /// The limit's name.
    pub open spec fn name(&self) -> Seq<char> {
        match *self {
            LimitKind::PacketBytes => "packet bytes"@,
            LimitKind::SectionCount => "section count"@,
            LimitKind::SectionLength => "section length"@,
        }
    }

    /// Appends the limit's name.
    pub fn push_name(&self, s: &mut String)
        ensures
            final(s)@ == old(s)@ + self.name(),
    {
        match self {
            LimitKind::PacketBytes => s.append("packet bytes"),
            LimitKind::SectionCount => s.append("section count"),
            LimitKind::SectionLength => s.append("section length"),
        }
    }

    /// The limit's name as text.
    pub fn to_string(&self) -> (r: String)
        ensures
            r@ == self.name(),
    {
        let mut s = String::new();
        self.push_name(&mut s);
        s
    }
}

impl SectionFramingError {
    /// The error's message.
    pub open spec fn message(&self) -> Seq<char> {
        match *self {
            SectionFramingError::InvalidVarint => "invalid varint"@,
            SectionFramingError::LengthOverflow { value } => "length overflow: "@ + decimal(value as nat),
            SectionFramingError::Truncated { needed, available } => "truncated section: need "@ + decimal(needed as nat)
                + " bytes, have "@ + decimal(available as nat),
        }
    }

    /// Appends the error's message.
    pub fn push_message(&self, s: &mut String)
        ensures
            final(s)@ == old(s)@ + self.message(),
    {
        let ghost s0 = s@;
        match self {
            SectionFramingError::InvalidVarint => s.append("invalid varint"),
            SectionFramingError::LengthOverflow { value } => {
                s.append("length overflow: ");
                push_decimal(s, *value);
            },
            SectionFramingError::Truncated { needed, available } => {
                s.append("truncated section: need ");
                push_decimal(s, *needed as u64);
                s.append(" bytes, have ");
                push_decimal(s, *available as u64);
            },
        }
        assert(s@ =~= s0 + self.message());
    }

    /// The error as text.
    pub fn to_string(&self) -> (r: String)
        ensures
            r@ == self.message(),
    {
        let mut s = String::new();
        self.push_message(&mut s);
        assert(s@ =~= self.message());
        s
    }
}

impl DecodeError {
    /// The error's message.
    pub open spec fn message(&self) -> Seq<char> {
        match *self {
            DecodeError::PacketTooSmall { actual, required } => "packet too small: "@ + decimal(actual as nat)
                + " bytes, need at least "@ + decimal(required as nat),
            DecodeError::InvalidMagic { found } => "invalid magic number: 0x"@ + hex_digits(found as nat, 8),
            DecodeError::UnsupportedVersion { found } => "unsupported wire version: "@ + decimal(found as nat),
            DecodeError::InvalidFlags { flags } => "invalid flags: 0x"@ + hex_digits(flags as nat, 4),
            DecodeError::InvalidBaselineTick { baseline_tick, flags } => "invalid baseline tick "@ + decimal(
                baseline_tick as nat,
            ) + " for flags 0x"@ + hex_digits(flags as nat, 4),
            DecodeError::PayloadLengthMismatch { header_len, actual_len } => "payload length mismatch: header "@
                + decimal(header_len as nat) + " bytes but "@ + decimal(actual_len as nat) + " available"@,
            DecodeError::UnknownSectionTag { tag } => "unknown section tag: "@ + decimal(tag as nat),
            DecodeError::LimitsExceeded { kind, limit, actual } => kind.name() + " limit exceeded: "@ + decimal(
                actual as nat,
            ) + " > "@ + decimal(limit as nat),
            DecodeError::SectionFraming(e) => "section framing error: "@ + e.message(),
        }
    }

    /// Appends the error's message.
    pub fn push_message(&self, s: &mut String)
        ensures
            final(s)@ == old(s)@ + self.message(),
    {
        let ghost s0 = s@;
        match self {
            DecodeError::PacketTooSmall { actual, required } => {
                s.append("packet too small: ");
                push_decimal(s, *actual as u64);
                s.append(" bytes, need at least ");
                push_decimal(s, *required as u64);
            },
            DecodeError::InvalidMagic { found } => {
                s.append("invalid magic number: 0x");
                push_hex(s, *found as u64, 8);
            },
            DecodeError::UnsupportedVersion { found } => {
                s.append("unsupported wire version: ");
                push_decimal(s, *found as u64);
            },
            DecodeError::InvalidFlags { flags } => {
                s.append("invalid flags: 0x");
                push_hex(s, *flags as u64, 4);
            },
            DecodeError::InvalidBaselineTick { baseline_tick, flags } => {
                s.append("invalid baseline tick ");
                push_decimal(s, *baseline_tick as u64);
                s.append(" for flags 0x");
                push_hex(s, *flags as u64, 4);
            },
            DecodeError::PayloadLengthMismatch { header_len, actual_len } => {
                s.append("payload length mismatch: header ");
                push_decimal(s, *header_len as u64);
                s.append(" bytes but ");
                push_decimal(s, *actual_len as u64);
                s.append(" available");
            },
            DecodeError::UnknownSectionTag { tag } => {
                s.append("unknown section tag: ");
                push_decimal(s, *tag as u64);
            },
            DecodeError::LimitsExceeded { kind, limit, actual } => {
                kind.push_name(s);
                s.append(" limit exceeded: ");
                push_decimal(s, *actual as u64);
                s.append(" > ");
                push_decimal(s, *limit as u64);
            },
            DecodeError::SectionFraming(e) => {
                s.append("section framing error: ");
                e.push_message(s);
            },
        }
        assert(s@ =~= s0 + self.message());
    }

    /// The error as text.
    pub fn to_string(&self) -> (r: String)
        ensures
            r@ == self.message(),
    {
        let mut s = String::new();
        self.push_message(&mut s);
        assert(s@ =~= self.message());
        s
    }
}

impl EncodeError {
    /// The error's message.
    pub open spec fn message(&self) -> Seq<char> {
        match *self {
            EncodeError::BufferTooSmall { needed, available } => "buffer too small: need "@ + decimal(needed as nat)
                + ", have "@ + decimal(available as nat),
            EncodeError::LengthOverflow { length } => "length overflow: "@ + decimal(length as nat),
        }
    }

    /// The error as text.
    pub fn to_string(&self) -> (r: String)
        ensures
            r@ == self.message(),
    {
        let mut s = String::new();
        match self {
            EncodeError::BufferTooSmall { needed, available } => {
                s.append("buffer too small: need ");
                push_decimal(&mut s, *needed as u64);
                s.append(", have ");
                push_decimal(&mut s, *available as u64);
            },
            EncodeError::LengthOverflow { length } => {
                s.append("length overflow: ");
                push_decimal(&mut s, *length as u64);
            },
        }
        assert(s@ =~= self.message());
        s
    }
}

/// Wire-level error type (decode errors).
pub type WireError = DecodeError;

/// Result type for wire format operations.
pub type WireResult<T> = Result<T, DecodeError>;

} // verus!
