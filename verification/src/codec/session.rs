//! Session state for compact headers: the session init packet, and decoding
//! compact packets against the state it sets up.
use super::error::{CodecError, CodecResult, LimitKind};
use super::full::{hash_of, write_header};
use super::limits::CodecLimits;
use super::model::{lift, r_align, r_le, rcap, room, w_le};
use super::section::{frame_section, framed, lemma_section_at_keep, section_at, section_total, SECTION_PREFIX};
use super::types::{tick_of, SnapshotTick};
use crate::bitstream::bits::{bits_of, byte_bits, cap_bits, pad_len, padded};
use crate::bitstream::{BitError, BitReader, BitWriter};
use crate::schema::{schema_hash, ComponentDef, Schema};
use crate::wire::{
    decode_sections, decode_session_header, has_delta, has_full, has_session, header_bytes,
    sections_view, session_full, spec_decode_sections, spec_decode_session_header, DecodeError,
    Limits, PacketFlags, PacketHeader, SectionTag, SessionHeader, WirePacket, WireSection,
    HEADER_SIZE, VERSION,
};
use vstd::prelude::*;

verus! {

/// Compact header mode negotiated by the session init packet.
#[derive(Debug, Clone, Copy, PartialEq, Eq, Structural)]
pub enum CompactHeaderMode {
    /// Compact session header, first version (wire value 1).
    SessionV1,
}

/// The wire value of a compact header mode.
pub open spec fn mode_raw(m: CompactHeaderMode) -> u8 {
    match m {
        CompactHeaderMode::SessionV1 => 1,
    }
}

impl CompactHeaderMode {
    /// The mode's wire value.
    pub fn raw(self) -> (r: u8)
        ensures
            r == mode_raw(self),
    {
        match self {
            CompactHeaderMode::SessionV1 => 1,
        }
    }

    fn from_raw(raw: u8) -> (r: Option<Self>)
        ensures
            raw == 1 ==> r == Some(CompactHeaderMode::SessionV1),
            raw != 1 ==> r is None,
    {
        if raw == 1 {
            Some(CompactHeaderMode::SessionV1)
        } else {
            None
        }
    }
}

/// What a receiver knows of a session with compact headers.
#[derive(Debug, Clone)]
pub struct SessionState {
    pub schema_hash: u64,
    pub session_id: Option<u64>,
    pub last_tick: SnapshotTick,
    pub compact_mode: CompactHeaderMode,
}

// ---------------------------------------------------------------------------
// Session init packets.
/// The session init body written into `cap` bits: the session id (0 for
/// none) as 8 little-endian bytes, then the mode byte.
pub open spec fn enc_init_body(cap: nat, sid: Option<u64>, mode: CompactHeaderMode) -> Result<Seq<bool>, BitError> {
    let id = match sid {
        Some(v) => v,
        None => 0u64,
    };
    match w_le(Seq::empty(), cap, id, 8) {
        Err(e) => Err(e),
        Ok(w) => if room(w, cap) < 8 {
            Err(BitError::WriteOverflow { attempted: 8, available: room(w, cap) as usize })
        } else {
            Ok(w + byte_bits(mode_raw(mode)))
        },
    }
}

/// The session init body for an output buffer of `out_len` bytes, or the error.
pub open spec fn init_plan(sid: Option<u64>, mode: CompactHeaderMode, limits: CodecLimits, out_len: nat) -> Result<
    Seq<bool>,
    CodecError,
> {
    let avail = (out_len - HEADER_SIZE) as nat;
    let body = lift(enc_init_body(cap_bits((avail - SECTION_PREFIX) as nat), sid, mode));
    match framed(body, avail, limits) {
        Err(e) => Err(e),
        Ok(_) => body,
    }
}

/// The header of a session init packet.
pub open spec fn init_header(comps: Seq<ComponentDef>, tick: SnapshotTick, payload_len: nat) -> PacketHeader {
    PacketHeader {
        version: VERSION,
        flags: PacketFlags(4),
        schema_hash: hash_of(comps),
        tick: tick@,
        baseline_tick: 0,
        payload_len: payload_len as u32,
    }
}

fn encode_session_init_body(session_id: Option<u64>, compact_mode: CompactHeaderMode, writer: &mut BitWriter) -> (r:
    CodecResult<()>)
    requires
        old(writer).written().len() == 0,
    ensures
        final(writer).same_buffer(old(writer)),
        final(final(writer).target())@ == final(old(writer).target())@,
        match enc_init_body(old(writer).capacity(), session_id, compact_mode) {
            Ok(w) => r is Ok && final(writer).written() == w,
            Err(e) => r == Err::<(), CodecError>(CodecError::Bitstream(e)),
        },
{
    proof {
        assert(padded(Seq::<bool>::empty()) =~= Seq::<bool>::empty());
    }
    if let Err(e) = writer.align_to_byte() {
        return Err(CodecError::Bitstream(e));
    }
    let id = match session_id {
        Some(v) => v,
        None => 0u64,
    };
    if let Err(e) = writer.write_u64_aligned(id) {
        return Err(CodecError::Bitstream(e));
    }
    if let Err(e) = writer.write_u8_aligned(compact_mode.raw()) {
        return Err(CodecError::Bitstream(e));
    }
    let ghost w = writer.written();
    proof {
        crate::bitstream::bits::lemma_le_bytes_len(id as nat, 8);
        assert(w.len() == 72);
        assert(padded(w) =~= w);
    }
    if let Err(e) = writer.align_to_byte() {
        return Err(CodecError::Bitstream(e));
    }
    Ok(())
}

/// Encodes a session init packet into `out` and returns the bytes used.
pub fn encode_session_init_packet(
    schema: &Schema,
    tick: SnapshotTick,
    session_id: Option<u64>,
    compact_mode: CompactHeaderMode,
    limits: &CodecLimits,
    out: &mut [u8],
) -> (r: CodecResult<usize>)
    requires
        old(out)@.len() >= HEADER_SIZE,
    ensures
        final(out)@.len() == old(out)@.len(),
        match init_plan(session_id, compact_mode, *limits, old(out)@.len()) {
            Err(e) => r == Err::<usize, CodecError>(e),
            Ok(w) => {
                let t = section_total(w.len() / 8);
                &&& r == Ok::<usize, CodecError>((HEADER_SIZE + t) as usize)
                &&& final(out)@.take(HEADER_SIZE as int) == header_bytes(init_header(schema.components@, tick, t))
                &&& section_at(final(out)@, HEADER_SIZE as int, SectionTag::SessionInit, w)
            },
        },
{
    let avail = out.len() - HEADER_SIZE;
    if avail < SECTION_PREFIX {
        return Err(CodecError::OutputTooSmall { needed: SECTION_PREFIX, available: avail });
    }
    let body_room = avail - SECTION_PREFIX;
    let mut tmp: Vec<u8> = vec![0u8; body_room];
    let (body_len, w) = {
        let mut writer = BitWriter::new(tmp.as_mut_slice());
        let res = encode_session_init_body(session_id, compact_mode, &mut writer);
        let ghost w = writer.written();
        match res {
            Ok(()) => {},
            Err(e) => {
                return Err(e);
            },
        }
        let n = writer.finish();
        (n, Ghost(w))
    };
    let ghost wv = w@;
    proof {
        crate::bitstream::bits::lemma_le_bytes_len(
            (match session_id {
                Some(v) => v,
                None => 0u64,
            }) as nat,
            8,
        );
        assert(wv.len() == 72);
    }
    let written = frame_section(SectionTag::SessionInit, &tmp, body_len, out, HEADER_SIZE, limits, Ghost(wv))?;
    let header = PacketHeader {
        version: VERSION,
        flags: PacketFlags::session_init(),
        schema_hash: schema_hash(schema),
        tick: tick.raw(),
        baseline_tick: 0,
        payload_len: written as u32,
    };
    let ghost before = out@;
    write_header(&header, out);
    proof {
        lemma_section_at_keep(before, out@, HEADER_SIZE as int, HEADER_SIZE as int, SectionTag::SessionInit, wv);
    }
    Ok(HEADER_SIZE + written)
}

/// What a session init body decodes to: the session id (none for 0) and the mode.
pub open spec fn dec_init_body(d: Seq<u8>, limits: CodecLimits) -> Result<(Option<u64>, CompactHeaderMode), CodecError> {
    if d.len() > limits.max_section_bytes {
        Err(
            CodecError::LimitsExceeded {
                kind: LimitKind::SectionBytes,
                limit: limits.max_section_bytes,
                actual: d.len() as usize,
            },
        )
    } else {
        match r_align(d, 0) {
            Err(e) => Err(CodecError::Bitstream(e)),
            Ok(p0) => match r_le(d, p0, 8) {
                Err(e) => Err(CodecError::Bitstream(e)),
                Ok((id, p1)) => if rcap(d) - p1 < 8 {
                    Err(CodecError::Bitstream(BitError::EndOfBuffer { requested: 8, available: (rcap(d) - p1) as usize }))
                } else {
                    let mode = d[(p1 / 8) as int];
                    let p2 = p1 + 8;
                    match r_align(d, p2) {
                        Err(e) => Err(CodecError::Bitstream(e)),
                        Ok(p3) => if rcap(d) - p3 != 0 {
                            Err(
                                CodecError::TrailingSectionData {
                                    section: SectionTag::SessionInit,
                                    remaining_bits: (rcap(d) - p3) as usize,
                                },
                            )
                        } else if mode != 1 {
                            Err(CodecError::SessionUnsupportedMode { mode })
                        } else {
                            Ok(
                                (
                                    if id == 0 {
                                        None
                                    } else {
                                        Some(id as u64)
                                    },
                                    CompactHeaderMode::SessionV1,
                                ),
                            )
                        },
                    }
                },
            },
        }
    }
}

fn decode_session_init_body(body: &[u8], limits: &CodecLimits) -> (r: CodecResult<(Option<u64>, CompactHeaderMode)>)
    ensures
        r == dec_init_body(body@, *limits),
{
    if body.len() > limits.max_section_bytes {
        return Err(
            CodecError::LimitsExceeded { kind: LimitKind::SectionBytes, limit: limits.max_section_bytes, actual: body.len() },
        );
    }
    let mut reader = BitReader::new(body);
    if let Err(e) = reader.align_to_byte() {
        return Err(CodecError::Bitstream(e));
    }
    let session_id = match reader.read_u64_aligned() {
        Ok(v) => v,
        Err(e) => {
            return Err(CodecError::Bitstream(e));
        },
    };
    let mode = match reader.read_u8_aligned() {
        Ok(v) => v,
        Err(e) => {
            return Err(CodecError::Bitstream(e));
        },
    };
    if let Err(e) = reader.align_to_byte() {
        return Err(CodecError::Bitstream(e));
    }
    let remaining = reader.bits_remaining();
    if remaining != 0 {
        return Err(CodecError::TrailingSectionData { section: SectionTag::SessionInit, remaining_bits: remaining });
    }
    let compact_mode = match CompactHeaderMode::from_raw(mode) {
        Some(m) => m,
        None => {
            return Err(CodecError::SessionUnsupportedMode { mode });
        },
    };
    Ok((
        if session_id == 0 {
            None
        } else {
            Some(session_id)
        },
        compact_mode,
    ))
}

/// Scanning the sections `k..` of a session init packet: only session init
/// sections are allowed, and at most one.
pub open spec fn init_scan(secs: Seq<(SectionTag, Seq<u8>)>, k: nat, found: Option<Seq<u8>>) -> Result<
    Option<Seq<u8>>,
    CodecError,
>
    decreases secs.len() - k,
{
    if k >= secs.len() {
        Ok(found)
    } else if secs[k as int].0 != SectionTag::SessionInit {
        Err(CodecError::UnexpectedSection { section: secs[k as int].0 })
    } else if found is Some {
        Err(CodecError::SessionInitInvalid)
    } else {
        init_scan(secs, k + 1, Some(secs[k as int].1))
    }
}

/// The session state a session init packet sets up.
pub open spec fn init_from_packet(comps: Seq<ComponentDef>, h: PacketHeader, secs: Seq<(SectionTag, Seq<u8>)>, limits: CodecLimits) -> Result<
    SessionState,
    CodecError,
> {
    if !has_session(h.flags.0) {
        Err(CodecError::SessionMissing)
    } else if has_full(h.flags.0) || has_delta(h.flags.0) || h.baseline_tick != 0 {
        Err(CodecError::SessionInitInvalid)
    } else if h.schema_hash != hash_of(comps) {
        Err(CodecError::SchemaMismatch { expected: hash_of(comps), found: h.schema_hash })
    } else {
        match init_scan(secs, 0, None) {
            Err(e) => Err(e),
            Ok(None) => Err(CodecError::SessionInitInvalid),
            Ok(Some(body)) => match dec_init_body(body, limits) {
                Err(e) => Err(e),
                Ok((sid, mode)) => Ok(
                    SessionState {
                        schema_hash: h.schema_hash,
                        session_id: sid,
                        last_tick: tick_of(h.tick),
                        compact_mode: mode,
                    },
                ),
            },
        }
    }
}

/// Decodes a session init packet into session state.
pub fn decode_session_init_packet(schema: &Schema, packet: &WirePacket, limits: &CodecLimits) -> (r: CodecResult<
    SessionState,
>)
    ensures
        r == init_from_packet(schema.components@, packet.header, sections_view(packet.sections@), *limits),
{
    let header = packet.header;
    if !header.flags.is_session_init() {
        return Err(CodecError::SessionMissing);
    }
    if header.flags.is_full_snapshot() || header.flags.is_delta_snapshot() {
        return Err(CodecError::SessionInitInvalid);
    }
    if header.baseline_tick != 0 {
        return Err(CodecError::SessionInitInvalid);
    }
    let expected = schema_hash(schema);
    if header.schema_hash != expected {
        return Err(CodecError::SchemaMismatch { expected, found: header.schema_hash });
    }
    let ghost secs = sections_view(packet.sections@);
    let n = packet.sections.len();
    let mut init: Option<usize> = None;
    let mut k: usize = 0;
    while k < n
        invariant
            n == packet.sections@.len(),
            secs == sections_view(packet.sections@),
            header == packet.header,
            has_session(header.flags.0),
            !has_full(header.flags.0) && !has_delta(header.flags.0),
            header.baseline_tick == 0,
            header.schema_hash == hash_of(schema.components@),
            k <= n,
            init matches Some(i) ==> i < k,
            init_scan(secs, 0, None) == init_scan(
                secs,
                k as nat,
                match init {
                    Some(i) => Some(secs[i as int].1),
                    None => None,
                },
            ),
        decreases n - k,
    {
        let section = &packet.sections[k];
        assert(secs[k as int] == (section.tag, section.body@));
        match section.tag {
            SectionTag::SessionInit => {
                if init.is_some() {
                    return Err(CodecError::SessionInitInvalid);
                }
                init = Some(k);
            },
            _ => {
                return Err(CodecError::UnexpectedSection { section: section.tag });
            },
        }
        k = k + 1;
    }
    let i = match init {
        Some(i) => i,
        None => {
            return Err(CodecError::SessionInitInvalid);
        },
    };
    assert(secs[i as int] == (packet.sections@[i as int].tag, packet.sections@[i as int].body@));
    let (session_id, compact_mode) = decode_session_init_body(packet.sections[i].body, limits)?;
    Ok(SessionState { schema_hash: header.schema_hash, session_id, last_tick: SnapshotTick::new(header.tick), compact_mode })
}

// ---------------------------------------------------------------------------
// Compact packets.
/// The packet header a compact header stands for within a session.
pub open spec fn expanded_header(sh: SessionHeader, schema_hash: u64) -> PacketHeader {
    PacketHeader {
        version: VERSION,
        flags: PacketFlags(
            if session_full(sh.flags.0) {
                1
            } else {
                2
            },
        ),
        schema_hash,
        tick: sh.tick,
        baseline_tick: sh.baseline_tick,
        payload_len: sh.payload_len,
    }
}

/// What decoding a compact packet gives: the expanded header and the
/// sections, or the error.
pub open spec fn session_packet(comps: Seq<ComponentDef>, s: SessionState, buf: Seq<u8>, limits: Limits) -> Result<
    (PacketHeader, Seq<(SectionTag, Seq<u8>)>),
    CodecError,
> {
    if s.schema_hash != hash_of(comps) {
        Err(CodecError::SchemaMismatch { expected: hash_of(comps), found: s.schema_hash })
    } else {
        match spec_decode_session_header(buf, s.last_tick@) {
            Err(e) => Err(CodecError::Wire(e)),
            Ok(sh) => if sh.tick <= s.last_tick@ {
                Err(CodecError::SessionOutOfOrder { previous: s.last_tick@, current: sh.tick })
            } else if sh.header_len + sh.payload_len > buf.len() {
                Err(
                    CodecError::Wire(
                        DecodeError::PayloadLengthMismatch {
                            header_len: sh.payload_len,
                            actual_len: (buf.len() - sh.header_len) as usize,
                        },
                    ),
                )
            } else {
                let payload = buf.subrange(sh.header_len as int, sh.header_len + sh.payload_len);
                match spec_decode_sections(payload, 0, 0, limits) {
                    Err(e) => Err(CodecError::Wire(e)),
                    Ok(secs) => Ok((expanded_header(sh, s.schema_hash), secs)),
                }
            },
        }
    }
}

/// Decodes a compact packet against the session state, advancing the
/// session's last tick when it succeeds.
pub fn decode_session_packet<'a>(schema: &Schema, session: &mut SessionState, bytes: &'a [u8], wire_limits: &Limits) -> (r:
    CodecResult<WirePacket<'a>>)
    ensures
        match session_packet(schema.components@, *old(session), bytes@, *wire_limits) {
            Err(e) => r == Err::<WirePacket<'a>, CodecError>(e) && *final(session) == *old(session),
            Ok((h, secs)) => r is Ok && r->Ok_0.header == h && sections_view(r->Ok_0.sections@) == secs
                && *final(session) == (SessionState { last_tick: tick_of(h.tick), ..*old(session) }),
        },
{
    let expected = schema_hash(schema);
    if session.schema_hash != expected {
        return Err(CodecError::SchemaMismatch { expected, found: session.schema_hash });
    }
    let last = session.last_tick.raw();
    let header = match decode_session_header(bytes, last) {
        Ok(h) => h,
        Err(e) => {
            return Err(CodecError::Wire(e));
        },
    };
    if header.tick <= last {
        return Err(CodecError::SessionOutOfOrder { previous: last, current: header.tick });
    }
    let payload_start = header.header_len;
    let room_left = bytes.len() - payload_start;
    if header.payload_len as usize > room_left {
        return Err(
            CodecError::Wire(
                DecodeError::PayloadLengthMismatch { header_len: header.payload_len, actual_len: room_left },
            ),
        );
    }
    let payload_end = payload_start + header.payload_len as usize;
    let payload = &bytes[payload_start..payload_end];
    assert(payload@ == bytes@.subrange(payload_start as int, payload_end as int));
    let sections = match decode_sections(payload, wire_limits) {
        Ok(s) => s,
        Err(e) => {
            return Err(CodecError::Wire(e));
        },
    };
    session.last_tick = SnapshotTick::new(header.tick);
    let flags = if header.flags.is_full_snapshot() {
        PacketFlags::full_snapshot()
    } else {
        PacketFlags::delta_snapshot()
    };
    Ok(
        WirePacket {
            header: PacketHeader {
                version: VERSION,
                flags,
                schema_hash: session.schema_hash,
                tick: header.tick,
                baseline_tick: header.baseline_tick,
                payload_len: header.payload_len,
            },
            sections,
        },
    )
}

/// A compact packet decoded within a session carries the ticks its header
/// encodes: its tick is the session's last tick plus the header's tick
/// delta, its baseline tick is that tick less the header's baseline delta,
/// and its schema hash is the session's.
pub proof fn lemma_session_packet_ticks(
    comps: Seq<ComponentDef>,
    s: SessionState,
    flags: u8,
    tick_delta: u32,
    baseline_delta: u32,
    payload_len: u32,
    payload: Seq<u8>,
    limits: Limits,
)
    ensures
        session_packet(
            comps,
            s,
            crate::wire::session_header_bytes(flags, tick_delta, baseline_delta, payload_len) + payload,
            limits,
        ) matches Ok((h, _)) ==> {
            &&& h.tick == s.last_tick@ + tick_delta
            &&& h.baseline_tick == s.last_tick@ + tick_delta - baseline_delta
            &&& h.payload_len == payload_len
            &&& h.schema_hash == s.schema_hash
        },
{
    let hb = crate::wire::session_header_bytes(flags, tick_delta, baseline_delta, payload_len);
    let buf = hb + payload;
    assert(buf.take(hb.len() as int) =~= hb);
    crate::wire::lemma_session_header_fields(buf, flags, tick_delta, baseline_delta, payload_len);
}

} // verus!
