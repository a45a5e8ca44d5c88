//! Compact session headers: a flags byte and three varints that carry
//! tick deltas against the last tick the receiver saw.
use super::bytes::{
    leb_scan, lemma_leb_scan_bound, lemma_leb_scan_roundtrip, lemma_pow2_7k_4, pow2_7k, put_varu32,
    read_leb, splice, LebFail, LebScan,
};
use super::error::{DecodeError, EncodeError, SectionFramingError, WireResult};
use crate::bitstream::bits::{lemma_varu32_len, varu32_bytes};
use vstd::prelude::*;

verus! {

/// Maximum size of a compact session header (flags + three varints).
pub const SESSION_MAX_HEADER_SIZE: usize = 16;

/// Compact header flags.
#[derive(Debug, Clone, Copy, PartialEq, Eq, Hash, Default)]
pub struct SessionFlags(pub u8);

/// `raw` has the full-snapshot bit.
pub open spec fn session_full(raw: u8) -> bool {
    raw & 1u8 != 0
}

/// `raw` has the delta-snapshot bit.
pub open spec fn session_delta(raw: u8) -> bool {
    raw & 2u8 != 0
}

/// Exactly one of full/delta is set and no other bit.
pub open spec fn session_valid(raw: u8) -> bool {
    (session_full(raw) != session_delta(raw)) && raw & 0xFCu8 == 0
}

impl SessionFlags {
    /// Flag bit for a full snapshot.
    pub const FULL_SNAPSHOT: u8 = 1;

    /// Flag bit for a delta snapshot.
    pub const DELTA_SNAPSHOT: u8 = 2;

    /// Creates flags from a raw byte.
    pub fn from_raw(raw: u8) -> (f: Self)
        ensures
            f.0 == raw,
    {
        Self(raw)
    }

    /// Returns the raw flag bits.
    pub fn raw(self) -> (r: u8)
        ensures
            r == self.0,
    {
        self.0
    }

    /// Returns `true` if the full-snapshot bit is set.
    pub fn is_full_snapshot(self) -> (b: bool)
        ensures
            b == session_full(self.0),
    {
        self.0 & 1 != 0
    }

    /// Returns `true` if the delta-snapshot bit is set.
    pub fn is_delta_snapshot(self) -> (b: bool)
        ensures
            b == session_delta(self.0),
    {
        self.0 & 2 != 0
    }

    /// Returns `true` if exactly one of full/delta is set and no reserved bit.
    pub fn is_valid(self) -> (b: bool)
        ensures
            b == session_valid(self.0),
    {
        let has_full = self.is_full_snapshot();
        let has_delta = self.is_delta_snapshot();
        let has_reserved = self.0 & 0xFC != 0;
        (has_full != has_delta) && !has_reserved
    }

    /// Flags for a full snapshot.
    pub fn full_snapshot() -> (f: Self)
        ensures
            f.0 == 1,
            session_valid(f.0),
            session_full(f.0),
    {
        assert(session_valid(1u8) && session_full(1u8)) by (bit_vector);
        Self(1)
    }

    /// Flags for a delta snapshot.
    pub fn delta_snapshot() -> (f: Self)
        ensures
            f.0 == 2,
            session_valid(f.0),
            session_delta(f.0),
            !session_full(f.0),
    {
        assert(session_valid(2u8) && session_delta(2u8) && !session_full(2u8)) by (bit_vector);
        Self(2)
    }
}

/// Decoded compact session header.
#[derive(Debug, Clone, Copy, PartialEq, Eq)]
pub struct SessionHeader {
    pub flags: SessionFlags,
    pub tick: u32,
    pub baseline_tick: u32,
    pub payload_len: u32,
    pub header_len: usize,
}

/// The bytes of a compact session header.
pub open spec fn session_header_bytes(flags: u8, tick_delta: u32, baseline_delta: u32, payload_len: u32) -> Seq<u8> {
    seq![flags] + varu32_bytes(tick_delta) + varu32_bytes(baseline_delta) + varu32_bytes(payload_len)
}

/// Encodes a compact session header and returns the number of bytes written.
pub fn encode_session_header(
    out: &mut [u8],
    flags: SessionFlags,
    tick_delta: u32,
    baseline_delta: u32,
    payload_len: u32,
) -> (r: Result<usize, EncodeError>)
    ensures
        old(out)@.len() < SESSION_MAX_HEADER_SIZE ==> r == Err::<usize, EncodeError>(
            EncodeError::BufferTooSmall {
                needed: SESSION_MAX_HEADER_SIZE,
                available: old(out)@.len() as usize,
            },
        ),
        old(out)@.len() >= SESSION_MAX_HEADER_SIZE && !session_valid(flags.0) ==> r == Err::<
            usize,
            EncodeError,
        >(EncodeError::LengthOverflow { length: 0 }),
        r is Err ==> final(out)@ == old(out)@,
        old(out)@.len() >= SESSION_MAX_HEADER_SIZE && session_valid(flags.0) ==> {
            let b = session_header_bytes(flags.0, tick_delta, baseline_delta, payload_len);
            &&& r == Ok::<usize, EncodeError>(b.len() as usize)
            &&& b.len() <= SESSION_MAX_HEADER_SIZE
            &&& final(out)@ == splice(old(out)@, 0, b)
        },
{
    if out.len() < SESSION_MAX_HEADER_SIZE {
        return Err(
            EncodeError::BufferTooSmall { needed: SESSION_MAX_HEADER_SIZE, available: out.len() },
        );
    }
    if !flags.is_valid() {
        return Err(EncodeError::LengthOverflow { length: 0 });
    }
    proof {
        lemma_varu32_len(tick_delta);
        lemma_varu32_len(baseline_delta);
        lemma_varu32_len(payload_len);
    }
    let ghost o = out@;
    out[0] = flags.raw();
    let ghost o1 = out@;
    let n1 = put_varu32(out, 1, tick_delta);
    let ghost o2 = out@;
    let n2 = put_varu32(out, 1 + n1, baseline_delta);
    let ghost o3 = out@;
    let n3 = put_varu32(out, 1 + n1 + n2, payload_len);
    proof {
        let b = session_header_bytes(flags.0, tick_delta, baseline_delta, payload_len);
        let e1 = varu32_bytes(tick_delta);
        let e2 = varu32_bytes(baseline_delta);
        let e3 = varu32_bytes(payload_len);
        assert(b.len() == 1 + n1 + n2 + n3);
        assert forall|j: int| 0 <= j < o.len() implies #[trigger] out@[j] == splice(o, 0, b)[j] by {
            if j == 0 {
            } else if j < 1 + n1 {
                assert(b[j] == e1[j - 1]);
            } else if j < 1 + n1 + n2 {
                assert(b[j] == e2[j - 1 - n1]);
            } else if j < 1 + n1 + n2 + n3 {
                assert(b[j] == e3[j - 1 - n1 - n2]);
            }
        }
        assert(out@ =~= splice(o, 0, b));
    }
    Ok(1 + n1 + n2 + n3)
}

/// A varint of a compact header at byte `i`: its value taken to 32 bits and
/// the index just past it.
pub open spec fn session_varint(buf: Seq<u8>, i: nat) -> Result<(u32, nat), DecodeError> {
    match leb_scan(buf, i, 0) {
        LebScan::Value { value, end } => Ok(((value % 0x1_0000_0000) as u32, end)),
        LebScan::Truncated { .. } => Err(
            DecodeError::SectionFraming(SectionFramingError::Truncated { needed: 1, available: 0 }),
        ),
        LebScan::TooLong => Err(DecodeError::SectionFraming(SectionFramingError::InvalidVarint)),
    }
}

/// What decoding a compact session header yields, given the last tick seen.
pub open spec fn spec_decode_session_header(buf: Seq<u8>, last_tick: u32) -> Result<
    SessionHeader,
    DecodeError,
> {
    if buf.len() == 0 {
        Err(DecodeError::PacketTooSmall { actual: 0, required: 1 })
    } else {
        let raw = buf[0];
        let bad_flags = DecodeError::InvalidFlags { flags: raw as u16 };
        if !session_valid(raw) {
            Err(bad_flags)
        } else {
            match session_varint(buf, 1) {
                Err(e) => Err(e),
                Ok((tick_delta, e1)) => if tick_delta == 0 || last_tick + tick_delta > u32::MAX {
                    Err(bad_flags)
                } else {
                    let tick = (last_tick + tick_delta) as u32;
                    match session_varint(buf, e1) {
                        Err(e) => Err(e),
                        Ok((baseline_delta, e2)) => if baseline_delta > tick {
                            Err(
                                DecodeError::InvalidBaselineTick {
                                    baseline_tick: baseline_delta,
                                    flags: raw as u16,
                                },
                            )
                        } else {
                            let baseline_tick = (tick - baseline_delta) as u32;
                            if (session_full(raw) && baseline_delta != 0) || (session_delta(raw)
                                && baseline_tick == 0) {
                                Err(
                                    DecodeError::InvalidBaselineTick {
                                        baseline_tick,
                                        flags: raw as u16,
                                    },
                                )
                            } else {
                                match session_varint(buf, e2) {
                                    Err(e) => Err(e),
                                    Ok((payload_len, e3)) => Ok(
                                        SessionHeader {
                                            flags: SessionFlags(raw),
                                            tick,
                                            baseline_tick,
                                            payload_len,
                                            header_len: e3 as usize,
                                        },
                                    ),
                                }
                            }
                        },
                    }
                },
            }
        }
    }
}

fn read_session_varu32(buf: &[u8], offset: usize) -> (r: Result<(u32, usize), DecodeError>)
    requires
        offset <= buf@.len(),
    ensures
        match session_varint(buf@, offset as nat) {
            Ok((v, e)) => r == Ok::<(u32, usize), DecodeError>((v, e as usize)) && offset < e
                <= buf@.len(),
            Err(e) => r == Err::<(u32, usize), DecodeError>(e),
        },
{
    proof {
        lemma_leb_scan_bound(buf@, offset as nat, 0);
        reveal_with_fuel(pow2_7k, 6);
    }
    match read_leb(buf, offset, 0) {
        Ok((v, end)) => Ok(((v % 0x1_0000_0000) as u32, end)),
        Err(LebFail::Truncated(_)) => Err(
            DecodeError::SectionFraming(SectionFramingError::Truncated { needed: 1, available: 0 }),
        ),
        Err(LebFail::TooLong) => Err(DecodeError::SectionFraming(SectionFramingError::InvalidVarint)),
    }
}

/// Decodes a compact session header using the last known tick.
pub fn decode_session_header(buf: &[u8], last_tick: u32) -> (r: WireResult<SessionHeader>)
    ensures
        r == spec_decode_session_header(buf@, last_tick),
        r matches Ok(h) ==> h.header_len <= buf@.len(),
{
    if buf.len() == 0 {
        return Err(DecodeError::PacketTooSmall { actual: buf.len(), required: 1 });
    }
    let flags = SessionFlags::from_raw(buf[0]);
    if !flags.is_valid() {
        return Err(DecodeError::InvalidFlags { flags: flags.raw() as u16 });
    }
    let (tick_delta, offset) = read_session_varu32(buf, 1)?;
    if tick_delta == 0 {
        return Err(DecodeError::InvalidFlags { flags: flags.raw() as u16 });
    }
    let tick = match last_tick.checked_add(tick_delta) {
        Some(t) => t,
        None => {
            return Err(DecodeError::InvalidFlags { flags: flags.raw() as u16 });
        },
    };
    let (baseline_delta, offset) = read_session_varu32(buf, offset)?;
    let baseline_tick = match tick.checked_sub(baseline_delta) {
        Some(t) => t,
        None => {
            return Err(
                DecodeError::InvalidBaselineTick {
                    baseline_tick: baseline_delta,
                    flags: flags.raw() as u16,
                },
            );
        },
    };
    if flags.is_full_snapshot() && baseline_delta != 0 {
        return Err(DecodeError::InvalidBaselineTick { baseline_tick, flags: flags.raw() as u16 });
    }
    if flags.is_delta_snapshot() && baseline_tick == 0 {
        return Err(DecodeError::InvalidBaselineTick { baseline_tick, flags: flags.raw() as u16 });
    }
    let (payload_len, offset) = read_session_varu32(buf, offset)?;
    Ok(SessionHeader { flags, tick, baseline_tick, payload_len, header_len: offset })
}

/// A compact header decodes back to the ticks it was encoded from: for valid
/// flags, a non-zero tick delta that does not overflow the last tick, and a
/// baseline delta that fits the kind of snapshot, the encoded bytes (followed
/// by anything) decode to the tick, baseline tick and payload length, and
/// the header length is the number of bytes written.
pub proof fn lemma_session_header_roundtrip(
    buf: Seq<u8>,
    flags: u8,
    last_tick: u32,
    tick_delta: u32,
    baseline_delta: u32,
    payload_len: u32,
)
    requires
        session_valid(flags),
        tick_delta != 0,
        last_tick + tick_delta <= u32::MAX,
        baseline_delta <= last_tick + tick_delta,
        session_full(flags) ==> baseline_delta == 0,
        session_delta(flags) ==> baseline_delta < last_tick + tick_delta,
        buf.len() >= session_header_bytes(flags, tick_delta, baseline_delta, payload_len).len(),
        buf.take(session_header_bytes(flags, tick_delta, baseline_delta, payload_len).len() as int)
            == session_header_bytes(flags, tick_delta, baseline_delta, payload_len),
    ensures
        spec_decode_session_header(buf, last_tick) == Ok::<SessionHeader, DecodeError>(
            SessionHeader {
                flags: SessionFlags(flags),
                tick: (last_tick + tick_delta) as u32,
                baseline_tick: (last_tick + tick_delta - baseline_delta) as u32,
                payload_len,
                header_len: session_header_bytes(flags, tick_delta, baseline_delta, payload_len).len() as usize,
            },
        ),
{
    let b = session_header_bytes(flags, tick_delta, baseline_delta, payload_len);
    let e1 = varu32_bytes(tick_delta);
    let e2 = varu32_bytes(baseline_delta);
    let e3 = varu32_bytes(payload_len);
    lemma_varu32_len(tick_delta);
    lemma_varu32_len(baseline_delta);
    lemma_varu32_len(payload_len);
    lemma_pow2_7k_4();
    assert(buf[0] == b[0]);
    let n1 = e1.len() as int;
    let n2 = e2.len() as int;
    let n3 = e3.len() as int;
    assert(buf.subrange(1, 1 + n1) =~= e1) by {
        assert forall|j: int| 0 <= j < n1 implies buf.subrange(1, 1 + n1)[j] == e1[j] by {
            assert(buf[1 + j] == b[1 + j]);
        }
    }
    lemma_leb_scan_roundtrip(buf, 1, 0, tick_delta);
    assert(buf.subrange(1 + n1, 1 + n1 + n2) =~= e2) by {
        assert forall|j: int| 0 <= j < n2 implies buf.subrange(1 + n1, 1 + n1 + n2)[j] == e2[j] by {
            assert(buf[1 + n1 + j] == b[1 + n1 + j]);
        }
    }
    lemma_leb_scan_roundtrip(buf, (1 + n1) as nat, 0, baseline_delta);
    assert(buf.subrange(1 + n1 + n2, 1 + n1 + n2 + n3) =~= e3) by {
        assert forall|j: int| 0 <= j < n3 implies buf.subrange(1 + n1 + n2, 1 + n1 + n2 + n3)[j]
            == e3[j] by {
            assert(buf[1 + n1 + n2 + j] == b[1 + n1 + n2 + j]);
        }
    }
    lemma_leb_scan_roundtrip(buf, (1 + n1 + n2) as nat, 0, payload_len);
    assert((tick_delta as nat) % 0x1_0000_0000 == tick_delta);
    assert((baseline_delta as nat) % 0x1_0000_0000 == baseline_delta);
    assert((payload_len as nat) % 0x1_0000_0000 == payload_len);
}

/// A buffer that starts with a compact header's bytes reads back that
/// header's flags and its three varints, whatever follows them.
pub proof fn lemma_session_header_fields(buf: Seq<u8>, flags: u8, tick_delta: u32, baseline_delta: u32, payload_len: u32)
    requires
        buf.len() >= session_header_bytes(flags, tick_delta, baseline_delta, payload_len).len(),
        buf.take(session_header_bytes(flags, tick_delta, baseline_delta, payload_len).len() as int)
            == session_header_bytes(flags, tick_delta, baseline_delta, payload_len),
    ensures
        buf[0] == flags,
        session_varint(buf, 1) == Ok::<(u32, nat), DecodeError>((tick_delta, 1 + varu32_bytes(tick_delta).len())),
        session_varint(buf, 1 + varu32_bytes(tick_delta).len()) == Ok::<(u32, nat), DecodeError>(
            (baseline_delta, 1 + varu32_bytes(tick_delta).len() + varu32_bytes(baseline_delta).len()),
        ),
        session_varint(buf, 1 + varu32_bytes(tick_delta).len() + varu32_bytes(baseline_delta).len()) == Ok::<
            (u32, nat),
            DecodeError,
        >(
            (
                payload_len,
                session_header_bytes(flags, tick_delta, baseline_delta, payload_len).len(),
            ),
        ),
{
    let b = session_header_bytes(flags, tick_delta, baseline_delta, payload_len);
    let e1 = varu32_bytes(tick_delta);
    let e2 = varu32_bytes(baseline_delta);
    let e3 = varu32_bytes(payload_len);
    lemma_varu32_len(tick_delta);
    lemma_varu32_len(baseline_delta);
    lemma_varu32_len(payload_len);
    lemma_pow2_7k_4();
    assert(buf[0] == buf.take(b.len() as int)[0]);
    let n1 = e1.len() as int;
    let n2 = e2.len() as int;
    let n3 = e3.len() as int;
    assert(buf.subrange(1, 1 + n1) =~= e1) by {
        assert forall|j: int| 0 <= j < n1 implies buf.subrange(1, 1 + n1)[j] == e1[j] by {
            assert(buf[1 + j] == buf.take(b.len() as int)[1 + j]);
            assert(b[1 + j] == e1[j]);
        }
    }
    lemma_leb_scan_roundtrip(buf, 1, 0, tick_delta);
    assert(buf.subrange(1 + n1, 1 + n1 + n2) =~= e2) by {
        assert forall|j: int| 0 <= j < n2 implies buf.subrange(1 + n1, 1 + n1 + n2)[j] == e2[j] by {
            assert(buf[1 + n1 + j] == buf.take(b.len() as int)[1 + n1 + j]);
            assert(b[1 + n1 + j] == e2[j]);
        }
    }
    lemma_leb_scan_roundtrip(buf, (1 + n1) as nat, 0, baseline_delta);
    assert(buf.subrange(1 + n1 + n2, 1 + n1 + n2 + n3) =~= e3) by {
        assert forall|j: int| 0 <= j < n3 implies buf.subrange(1 + n1 + n2, 1 + n1 + n2 + n3)[j]
            == e3[j] by {
            assert(buf[1 + n1 + n2 + j] == buf.take(b.len() as int)[1 + n1 + n2 + j]);
            assert(b[1 + n1 + n2 + j] == e3[j]);
        }
    }
    lemma_leb_scan_roundtrip(buf, (1 + n1 + n2) as nat, 0, payload_len);
    assert((tick_delta as nat) % 0x1_0000_0000 == tick_delta);
    assert((baseline_delta as nat) % 0x1_0000_0000 == baseline_delta);
    assert((payload_len as nat) % 0x1_0000_0000 == payload_len);
}

} // verus!
