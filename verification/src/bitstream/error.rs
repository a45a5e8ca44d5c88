//! Error type for bitstream operations.
use crate::text::{decimal, push_decimal};
use vstd::prelude::*;
use vstd::string::StringExecFns;

verus! {

/// Errors that can occur during bit-level encoding/decoding.
#[derive(Debug, Clone, PartialEq, Eq)]
pub enum BitError {
    /// Attempted to read past the end of the buffer.
    EndOfBuffer {
        /// Number of bits requested.
        requested: usize,
        /// Number of bits available.
        available: usize,
    },
    /// Reserved for bounded-capacity writer modes that report a fixed capacity.
    BufferOverflow {
        /// Number of bits attempted to write.
        attempted: usize,
        /// Maximum capacity in bits.
        capacity: usize,
    },
    /// Invalid bit count for the operation.
    InvalidBitCount {
        /// The invalid bit count provided.
        bits: usize,
        /// Maximum allowed bits for this operation.
        max_bits: usize,
    },
    /// Value exceeds the range representable by the specified number of bits.
    ValueOutOfRange {
        /// The value that was out of range.
        value: u64,
        /// Number of bits available.
        bits: usize,
    },
    /// Attempted to write past the end of a bounded buffer.
    WriteOverflow {
        /// Number of bits attempted to write.
        attempted: usize,
        /// Number of bits still free.
        available: usize,
    },
    /// A byte-aligned operation was attempted at a non-byte boundary.
    MisalignedAccess {
        /// The current bit position.
        bit_position: usize,
    },
    /// A varint ran over five bytes or past the `u32` range.
    InvalidVarint,
}

impl BitError {
    /// The error's message.
    pub open spec fn message(&self) -> Seq<char> {
        match *self {
            BitError::EndOfBuffer { requested, available } => "attempted to read "@ + decimal(requested as nat)
                + " bits but only "@ + decimal(available as nat) + " bits available"@,
            BitError::BufferOverflow { attempted, capacity } => "attempted to write "@ + decimal(attempted as nat)
                + " bits but buffer capacity is "@ + decimal(capacity as nat) + " bits"@,
            BitError::InvalidBitCount { bits, max_bits } => "invalid bit count "@ + decimal(bits as nat)
                + ", maximum allowed is "@ + decimal(max_bits as nat),
            BitError::ValueOutOfRange { value, bits } => "value "@ + decimal(value as nat) + " cannot be represented in "@
                + decimal(bits as nat) + " bits"@,
            BitError::WriteOverflow { attempted, available } => "attempted to write "@ + decimal(attempted as nat)
                + " bits but only "@ + decimal(available as nat) + " bits available"@,
            BitError::MisalignedAccess { bit_position } => "misaligned byte access at bit "@ + decimal(bit_position as nat),
            BitError::InvalidVarint => "invalid varint"@,
        }
    }

    /// The error as text.
    pub fn to_string(&self) -> (r: String)
        ensures
            r@ == self.message(),
    {
        let mut s = String::new();
        match self {
            BitError::EndOfBuffer { requested, available } => {
                s.append("attempted to read ");
                push_decimal(&mut s, *requested as u64);
                s.append(" bits but only ");
                push_decimal(&mut s, *available as u64);
                s.append(" bits available");
            },
            BitError::BufferOverflow { attempted, capacity } => {
                s.append("attempted to write ");
                push_decimal(&mut s, *attempted as u64);
                s.append(" bits but buffer capacity is ");
                push_decimal(&mut s, *capacity as u64);
                s.append(" bits");
            },
            BitError::InvalidBitCount { bits, max_bits } => {
                s.append("invalid bit count ");
                push_decimal(&mut s, *bits as u64);
                s.append(", maximum allowed is ");
                push_decimal(&mut s, *max_bits as u64);
            },
            BitError::ValueOutOfRange { value, bits } => {
                s.append("value ");
                push_decimal(&mut s, *value);
                s.append(" cannot be represented in ");
                push_decimal(&mut s, *bits as u64);
                s.append(" bits");
            },
            BitError::WriteOverflow { attempted, available } => {
                s.append("attempted to write ");
                push_decimal(&mut s, *attempted as u64);
                s.append(" bits but only ");
                push_decimal(&mut s, *available as u64);
                s.append(" bits available");
            },
            BitError::MisalignedAccess { bit_position } => {
                s.append("misaligned byte access at bit ");
                push_decimal(&mut s, *bit_position as u64);
            },
            BitError::InvalidVarint => {
                s.append("invalid varint");
            },
        }
        s
    }
}

/// Result type for bitstream operations.
pub type BitResult<T> = Result<T, BitError>;

} // verus!
