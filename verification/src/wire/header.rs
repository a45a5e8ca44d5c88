//! Packet header types and constants.
use vstd::prelude::*;

verus! {

/// Magic number identifying sdec packets ("SDEC" in ASCII).
///
/// This value is fixed and must never change across versions.
pub const MAGIC: u32 = 0x5344_4543;

/// Current wire format version.
pub const VERSION: u16 = 2;

/// Header size in bytes (28 total).
pub const HEADER_SIZE: usize = 28;

/// Packet flags.
#[derive(Debug, Clone, Copy, PartialEq, Eq, Hash, Default)]
pub struct PacketFlags(pub u16);

/// Flag bit for a full snapshot packet.
pub const FLAG_FULL_SNAPSHOT: u16 = 1;

/// Flag bit for a delta snapshot packet.
pub const FLAG_DELTA_SNAPSHOT: u16 = 2;

/// Flag bit for a session init packet.
pub const FLAG_SESSION_INIT: u16 = 4;

/// `raw` has the full-snapshot bit.
pub open spec fn has_full(raw: u16) -> bool {
    raw & 1u16 != 0
}

/// `raw` has the delta-snapshot bit.
pub open spec fn has_delta(raw: u16) -> bool {
    raw & 2u16 != 0
}

/// `raw` has the session-init bit.
pub open spec fn has_session(raw: u16) -> bool {
    raw & 4u16 != 0
}

/// `raw` has a bit above the three defined ones.
pub open spec fn has_reserved(raw: u16) -> bool {
    raw & 0xFFF8u16 != 0
}

/// Version 0 validity: exactly one of full/delta, and none of bits 2..15,
/// which version 0 reserves.
pub open spec fn valid_v0(raw: u16) -> bool {
    (has_full(raw) != has_delta(raw)) && raw & 0xFFFCu16 == 0
}

/// Version 2 validity: session init alone, or exactly one of full/delta,
/// and no reserved bit.
pub open spec fn valid_v2(raw: u16) -> bool {
    &&& !has_reserved(raw)
    &&& if has_session(raw) {
        !has_full(raw) && !has_delta(raw)
    } else {
        has_full(raw) != has_delta(raw)
    }
}

impl PacketFlags {
    /// Flag indicating a full snapshot packet.
    pub const FULL_SNAPSHOT: u16 = 1;

    /// Flag indicating a delta snapshot packet.
    pub const DELTA_SNAPSHOT: u16 = 2;

    /// Flag indicating a session init packet.
    pub const SESSION_INIT: u16 = 4;

    /// Creates new flags from a raw value.
    pub fn from_raw(raw: u16) -> (f: Self)
        ensures
            f.0 == raw,
    {
        PacketFlags(raw)
    }

    /// Returns the raw flag bits.
    pub fn raw(self) -> (r: u16)
        ensures
            r == self.0,
    {
        self.0
    }

    /// Returns `true` if this is a full snapshot.
    pub fn is_full_snapshot(self) -> (b: bool)
        ensures
            b == has_full(self.0),
    {
        self.0 & 1 != 0
    }

    /// Returns `true` if this is a delta snapshot.
    pub fn is_delta_snapshot(self) -> (b: bool)
        ensures
            b == has_delta(self.0),
    {
        self.0 & 2 != 0
    }

    /// Returns `true` if the flags are valid for version 0: exactly one of
    /// `FULL_SNAPSHOT` or `DELTA_SNAPSHOT` is set and none of bits 2..15, which
    /// version 0 reserves.
    pub fn is_valid_v0(self) -> (b: bool)
        ensures
            b == valid_v0(self.0),
    {
        let has_full = self.is_full_snapshot();
        let has_delta = self.is_delta_snapshot();
        let has_reserved = self.0 & 0xFFFC != 0;
        (has_full != has_delta) && !has_reserved
    }

    /// Returns `true` if this is a session init packet.
    pub fn is_session_init(self) -> (b: bool)
        ensures
            b == has_session(self.0),
    {
        self.0 & 4 != 0
    }

    /// Returns `true` if the flags are valid for version 2: either session init
    /// alone, or exactly one of full/delta without session init; no reserved bits.
    pub fn is_valid_v2(self) -> (b: bool)
        ensures
            b == valid_v2(self.0),
    {
        let has_full = self.is_full_snapshot();
        let has_delta = self.is_delta_snapshot();
        let has_session = self.is_session_init();
        let has_reserved = self.0 & 0xFFF8 != 0;
        if has_reserved {
            return false;
        }
        if has_session {
            return !has_full && !has_delta;
        }
        has_full != has_delta
    }

    /// Creates flags for a full snapshot.
    pub fn full_snapshot() -> (f: Self)
        ensures
            f.0 == 1,
    {
        PacketFlags(1)
    }

    /// Creates flags for a delta snapshot.
    pub fn delta_snapshot() -> (f: Self)
        ensures
            f.0 == 2,
    {
        PacketFlags(2)
    }

    /// Creates flags for a session init packet.
    pub fn session_init() -> (f: Self)
        ensures
            f.0 == 4,
    {
        PacketFlags(4)
    }
}

/// Packet header.
///
/// This struct represents the header fields *after* the magic number.
/// The magic number is validated separately during decoding and is not
/// stored in this struct.
#[derive(Debug, Clone, Copy, PartialEq, Eq)]
pub struct PacketHeader {
    /// Wire format version.
    pub version: u16,
    /// Packet flags.
    pub flags: PacketFlags,
    /// Schema hash for compatibility checking.
    pub schema_hash: u64,
    /// Simulation tick this snapshot represents.
    pub tick: u32,
    /// Baseline tick for delta packets (0 for full snapshots).
    pub baseline_tick: u32,
    /// Payload length in bytes.
    pub payload_len: u32,
}

impl PacketHeader {
    /// Creates a new header for a full snapshot.
    pub fn full_snapshot(schema_hash: u64, tick: u32, payload_len: u32) -> (h: Self)
        ensures
            h == (PacketHeader {
                version: VERSION,
                flags: PacketFlags(1),
                schema_hash,
                tick,
                baseline_tick: 0,
                payload_len,
            }),
    {
        Self {
            version: VERSION,
            flags: PacketFlags::full_snapshot(),
            schema_hash,
            tick,
            baseline_tick: 0,
            payload_len,
        }
    }

    /// Creates a new header for a delta snapshot.
    pub fn delta_snapshot(schema_hash: u64, tick: u32, baseline_tick: u32, payload_len: u32) -> (h:
        Self)
        ensures
            h == (PacketHeader {
                version: VERSION,
                flags: PacketFlags(2),
                schema_hash,
                tick,
                baseline_tick,
                payload_len,
            }),
    {
        Self {
            version: VERSION,
            flags: PacketFlags::delta_snapshot(),
            schema_hash,
            tick,
            baseline_tick,
            payload_len,
        }
    }
}

} // verus!
