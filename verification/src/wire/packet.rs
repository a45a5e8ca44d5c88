//! Packet decoding and section framing.
use super::bytes::{
    get_le, leb_scan, lemma_leb_scan_bound, lemma_leb_scan_roundtrip, lemma_pow2_7k_4, pow2_7k, put_bytes,
    put_le, put_varu32, read_leb, splice, LebFail, LebScan,
};
use super::error::{DecodeError, EncodeError, LimitKind, SectionFramingError, WireResult};
use super::header::{
    has_delta, has_full, has_session, valid_v2, PacketFlags, PacketHeader, HEADER_SIZE, MAGIC,
    VERSION,
};
use super::limits::Limits;
use crate::bitstream::bits::{
    le_bytes, le_value, lemma_le_bytes_len, lemma_le_roundtrip, lemma_varu32_len, varu32_bytes,
};
use crate::bitstream::varu32_len;
use vstd::prelude::*;

verus! {

/// Section tags for version 2.
#[derive(Debug, Clone, Copy, PartialEq, Eq, Structural)]
#[non_exhaustive]
pub enum SectionTag {
    EntityCreate,
    EntityDestroy,
    EntityUpdate,
    EntityUpdateSparse,
    EntityUpdateSparsePacked,
    SessionInit,
}

/// The byte that stands for a section tag on the wire.
pub open spec fn tag_raw(t: SectionTag) -> u8 {
    match t {
        SectionTag::EntityCreate => 1,
        SectionTag::EntityDestroy => 2,
        SectionTag::EntityUpdate => 3,
        SectionTag::EntityUpdateSparse => 4,
        SectionTag::EntityUpdateSparsePacked => 5,
        SectionTag::SessionInit => 6,
    }
}

/// The section tag a byte stands for, if any.
pub open spec fn tag_of(raw: u8) -> Option<SectionTag> {
    if raw == 1 {
        Some(SectionTag::EntityCreate)
    } else if raw == 2 {
        Some(SectionTag::EntityDestroy)
    } else if raw == 3 {
        Some(SectionTag::EntityUpdate)
    } else if raw == 4 {
        Some(SectionTag::EntityUpdateSparse)
    } else if raw == 5 {
        Some(SectionTag::EntityUpdateSparsePacked)
    } else if raw == 6 {
        Some(SectionTag::SessionInit)
    } else {
        None
    }
}

impl SectionTag {
    /// Parses a section tag from a raw byte.
    pub fn parse(tag: u8) -> (r: Result<Self, DecodeError>)
        ensures
            match tag_of(tag) {
                Some(t) => r == Ok::<SectionTag, DecodeError>(t),
                None => r == Err::<SectionTag, DecodeError>(DecodeError::UnknownSectionTag { tag }),
            },
    {
        match tag {
            1 => Ok(Self::EntityCreate),
            2 => Ok(Self::EntityDestroy),
            3 => Ok(Self::EntityUpdate),
            4 => Ok(Self::EntityUpdateSparse),
            5 => Ok(Self::EntityUpdateSparsePacked),
            6 => Ok(Self::SessionInit),
            _ => Err(DecodeError::UnknownSectionTag { tag }),
        }
    }

    /// The tag's byte on the wire.
    pub fn raw(self) -> (r: u8)
        ensures
            r == tag_raw(self),
            tag_of(r) == Some(self),
    {
        match self {
            Self::EntityCreate => 1,
            Self::EntityDestroy => 2,
            Self::EntityUpdate => 3,
            Self::EntityUpdateSparse => 4,
            Self::EntityUpdateSparsePacked => 5,
            Self::SessionInit => 6,
        }
    }
}

/// A section within a wire packet.
#[derive(Debug, Clone, Copy, PartialEq, Eq)]
pub struct WireSection<'a> {
    pub tag: SectionTag,
    pub body: &'a [u8],
}

/// A decoded wire packet.
#[derive(Debug, Clone, PartialEq, Eq)]
pub struct WirePacket<'a> {
    pub header: PacketHeader,
    pub sections: Vec<WireSection<'a>>,
}

/// A section as a tag and the bytes of its body.
pub open spec fn section_view(s: WireSection) -> (SectionTag, Seq<u8>) {
    (s.tag, s.body@)
}

/// The sections of a packet as tags and body bytes.
pub open spec fn sections_view(v: Seq<WireSection>) -> Seq<(SectionTag, Seq<u8>)> {
    v.map_values(|s: WireSection| section_view(s))
}

/// `a + b`, saturating at `usize::MAX`.
pub open spec fn sat_add(a: nat, b: nat) -> nat {
    if a + b <= usize::MAX {
        a + b
    } else {
        usize::MAX as nat
    }
}

/// `Ok(prefix + rest)` when `r` is `Ok(rest)`; the error otherwise.
pub open spec fn prepend_ok<T>(prefix: Seq<T>, r: Result<Seq<T>, DecodeError>) -> Result<
    Seq<T>,
    DecodeError,
> {
    match r {
        Ok(rest) => Ok(prefix + rest),
        Err(e) => Err(e),
    }
}

proof fn lemma_prepend_ok_assoc<T>(a: Seq<T>, b: Seq<T>, r: Result<Seq<T>, DecodeError>)
    ensures
        prepend_ok(a, prepend_ok(b, r)) == prepend_ok(a + b, r),
{
    if let Ok(rest) = r {
        assert(a + (b + rest) =~= (a + b) + rest);
    }
}

/// Section framing of a payload from byte `off` on, where `count` sections
/// precede: each section is a tag byte, a varint body length and the body.
pub open spec fn spec_decode_sections(p: Seq<u8>, off: nat, count: nat, limits: Limits) -> Result<
    Seq<(SectionTag, Seq<u8>)>,
    DecodeError,
>
    decreases p.len() - off,
{
    if off >= p.len() {
        Ok(Seq::empty())
    } else if count >= limits.max_sections {
        Err(
            DecodeError::LimitsExceeded {
                kind: LimitKind::SectionCount,
                limit: limits.max_sections,
                actual: (count + 1) as usize,
            },
        )
    } else {
        match leb_scan(p, off + 1, 0) {
            LebScan::Truncated { at } => Err(
                DecodeError::SectionFraming(
                    SectionFramingError::Truncated {
                        needed: sat_add(at, 1) as usize,
                        available: p.len() as usize,
                    },
                ),
            ),
            LebScan::TooLong => Err(DecodeError::SectionFraming(SectionFramingError::InvalidVarint)),
            LebScan::Value { value, end } => {
                if value > u32::MAX {
                    Err(
                        DecodeError::SectionFraming(
                            SectionFramingError::LengthOverflow { value: value as u64 },
                        ),
                    )
                } else if value > limits.max_section_len {
                    Err(
                        DecodeError::LimitsExceeded {
                            kind: LimitKind::SectionLength,
                            limit: limits.max_section_len,
                            actual: value as usize,
                        },
                    )
                } else if end + value > p.len() {
                    Err(
                        DecodeError::SectionFraming(
                            SectionFramingError::Truncated {
                                needed: sat_add(end, value) as usize,
                                available: p.len() as usize,
                            },
                        ),
                    )
                } else {
                    match tag_of(p[off as int]) {
                        None => Err(DecodeError::UnknownSectionTag { tag: p[off as int] }),
                        Some(t) => {
                            proof {
                                lemma_leb_scan_bound(p, off + 1, 0);
                            }
                            prepend_ok(
                                seq![(t, p.subrange(end as int, (end + value) as int))],
                                spec_decode_sections(p, end + value, count + 1, limits),
                            )
                        },
                    }
                }
            },
        }
    }
}

/// Decodes sections from a payload buffer (no packet header).
pub fn decode_sections<'a>(payload: &'a [u8], limits: &Limits) -> (r: WireResult<
    Vec<WireSection<'a>>,
>)
    ensures
        match spec_decode_sections(payload@, 0, 0, *limits) {
            Ok(s) => r is Ok && sections_view(r->Ok_0@) == s,
            Err(e) => r == Err::<Vec<WireSection<'a>>, DecodeError>(e),
        },
{
    let mut offset = 0usize;
    let mut sections: Vec<WireSection<'a>> = Vec::new();
    let plen = payload.len();
    assert(sections_view(sections@) =~= Seq::<(SectionTag, Seq<u8>)>::empty());
    assert(prepend_ok(
        Seq::<(SectionTag, Seq<u8>)>::empty(),
        spec_decode_sections(payload@, 0, 0, *limits),
    ) =~= spec_decode_sections(payload@, 0, 0, *limits));
    while offset < plen
        invariant
            plen == payload@.len(),
            offset <= plen,
            sections@.len() <= offset,
            spec_decode_sections(payload@, 0, 0, *limits) == prepend_ok(
                sections_view(sections@),
                spec_decode_sections(payload@, offset as nat, sections@.len(), *limits),
            ),
        decreases plen - offset,
    {
        let ghost before = sections_view(sections@);
        if sections.len() >= limits.max_sections {
            return Err(
                DecodeError::LimitsExceeded {
                    kind: LimitKind::SectionCount,
                    limit: limits.max_sections,
                    actual: sections.len() + 1,
                },
            );
        }
        let tag = payload[offset];
        proof {
            lemma_leb_scan_bound(payload@, (offset + 1) as nat, 0);
            reveal_with_fuel(pow2_7k, 6);
        }
        let (len64, body_start) = match read_leb(payload, offset + 1, 0) {
            Ok(x) => x,
            Err(LebFail::Truncated(at)) => {
                return Err(
                    DecodeError::SectionFraming(
                        SectionFramingError::Truncated {
                            needed: at.saturating_add(1),
                            available: plen,
                        },
                    ),
                );
            },
            Err(LebFail::TooLong) => {
                return Err(DecodeError::SectionFraming(SectionFramingError::InvalidVarint));
            },
        };
        if len64 > 0xFFFF_FFFFu64 {
            return Err(
                DecodeError::SectionFraming(SectionFramingError::LengthOverflow { value: len64 }),
            );
        }
        let len_usize = len64 as usize;
        if len_usize > limits.max_section_len {
            return Err(
                DecodeError::LimitsExceeded {
                    kind: LimitKind::SectionLength,
                    limit: limits.max_section_len,
                    actual: len_usize,
                },
            );
        }
        if len_usize > plen - body_start {
            return Err(
                DecodeError::SectionFraming(
                    SectionFramingError::Truncated {
                        needed: body_start.saturating_add(len_usize),
                        available: plen,
                    },
                ),
            );
        }
        let tag = SectionTag::parse(tag)?;
        let body = &payload[body_start..body_start + len_usize];
        sections.push(WireSection { tag, body });
        proof {
            let item = seq![(tag, payload@.subrange(body_start as int, body_start + len_usize))];
            assert(sections_view(sections@) =~= before + item);
            let rest = spec_decode_sections(
                payload@,
                (body_start + len_usize) as nat,
                sections@.len(),
                *limits,
            );
            lemma_prepend_ok_assoc(before, item, rest);
        }
        offset = body_start + len_usize;
    }
    assert(prepend_ok(sections_view(sections@), Ok(Seq::<(SectionTag, Seq<u8>)>::empty()))
        == Ok::<Seq<(SectionTag, Seq<u8>)>, DecodeError>(sections_view(sections@)));
    assert(sections_view(sections@) + Seq::<(SectionTag, Seq<u8>)>::empty() =~= sections_view(
        sections@,
    ));
    Ok(sections)
}

/// The 28 header bytes of a packet header.
pub open spec fn header_bytes(h: PacketHeader) -> Seq<u8> {
    le_bytes(MAGIC as nat, 4) + le_bytes(h.version as nat, 2) + le_bytes(h.flags.0 as nat, 2)
        + le_bytes(h.schema_hash as nat, 8) + le_bytes(h.tick as nat, 4) + le_bytes(
        h.baseline_tick as nat,
        4,
    ) + le_bytes(h.payload_len as nat, 4)
}

/// The header fields of a packet, validated against the packet size.
pub open spec fn spec_decode_header(buf: Seq<u8>, limits: Limits) -> Result<PacketHeader, DecodeError> {
    if buf.len() < HEADER_SIZE {
        Err(DecodeError::PacketTooSmall { actual: buf.len() as usize, required: HEADER_SIZE })
    } else if buf.len() > limits.max_packet_bytes {
        Err(
            DecodeError::LimitsExceeded {
                kind: LimitKind::PacketBytes,
                limit: limits.max_packet_bytes,
                actual: buf.len() as usize,
            },
        )
    } else {
        let magic = le_value(buf.subrange(0, 4)) as u32;
        let version = le_value(buf.subrange(4, 6)) as u16;
        let flags = le_value(buf.subrange(6, 8)) as u16;
        let schema_hash = le_value(buf.subrange(8, 16)) as u64;
        let tick = le_value(buf.subrange(16, 20)) as u32;
        let baseline_tick = le_value(buf.subrange(20, 24)) as u32;
        let payload_len = le_value(buf.subrange(24, 28)) as u32;
        if magic != MAGIC {
            Err(DecodeError::InvalidMagic { found: magic })
        } else if version != VERSION {
            Err(DecodeError::UnsupportedVersion { found: version })
        } else if !valid_v2(flags) {
            Err(DecodeError::InvalidFlags { flags })
        } else if !has_session(flags) && has_full(flags) && baseline_tick != 0 {
            Err(DecodeError::InvalidBaselineTick { baseline_tick, flags })
        } else if !has_session(flags) && has_delta(flags) && baseline_tick == 0 {
            Err(DecodeError::InvalidBaselineTick { baseline_tick, flags })
        } else if payload_len as nat != buf.len() - HEADER_SIZE {
            Err(
                DecodeError::PayloadLengthMismatch {
                    header_len: payload_len,
                    actual_len: (buf.len() - HEADER_SIZE) as usize,
                },
            )
        } else {
            Ok(
                PacketHeader {
                    version,
                    flags: PacketFlags(flags),
                    schema_hash,
                    tick,
                    baseline_tick,
                    payload_len,
                },
            )
        }
    }
}

/// A whole packet: the header, then the sections of the payload after it.
pub open spec fn spec_decode_packet(buf: Seq<u8>, limits: Limits) -> Result<
    (PacketHeader, Seq<(SectionTag, Seq<u8>)>),
    DecodeError,
> {
    match spec_decode_header(buf, limits) {
        Err(e) => Err(e),
        Ok(h) => match spec_decode_sections(buf.skip(HEADER_SIZE as int), 0, 0, limits) {
            Ok(s) => Ok((h, s)),
            Err(e) => Err(e),
        },
    }
}

/// Decodes a wire packet into header + section slices.
pub fn decode_packet<'a>(buf: &'a [u8], limits: &Limits) -> (r: WireResult<WirePacket<'a>>)
    ensures
        match spec_decode_packet(buf@, *limits) {
            Ok((h, s)) => r is Ok && r->Ok_0.header == h && sections_view(r->Ok_0.sections@) == s,
            Err(e) => r == Err::<WirePacket<'a>, DecodeError>(e),
        },
{
    if buf.len() < HEADER_SIZE {
        return Err(DecodeError::PacketTooSmall { actual: buf.len(), required: HEADER_SIZE });
    }
    if buf.len() > limits.max_packet_bytes {
        return Err(
            DecodeError::LimitsExceeded {
                kind: LimitKind::PacketBytes,
                limit: limits.max_packet_bytes,
                actual: buf.len(),
            },
        );
    }
    let magic = get_le(buf, 0, 4) as u32;
    if magic != MAGIC {
        return Err(DecodeError::InvalidMagic { found: magic });
    }
    let version = get_le(buf, 4, 2) as u16;
    if version != VERSION {
        return Err(DecodeError::UnsupportedVersion { found: version });
    }
    let flags_raw = get_le(buf, 6, 2) as u16;
    let flags = PacketFlags::from_raw(flags_raw);
    if !flags.is_valid_v2() {
        return Err(DecodeError::InvalidFlags { flags: flags_raw });
    }
    let schema_hash = get_le(buf, 8, 8);
    let tick = get_le(buf, 16, 4) as u32;
    let baseline_tick = get_le(buf, 20, 4) as u32;
    let payload_len = get_le(buf, 24, 4) as u32;
    if !flags.is_session_init() && flags.is_full_snapshot() && baseline_tick != 0 {
        return Err(DecodeError::InvalidBaselineTick { baseline_tick, flags: flags_raw });
    }
    if !flags.is_session_init() && flags.is_delta_snapshot() && baseline_tick == 0 {
        return Err(DecodeError::InvalidBaselineTick { baseline_tick, flags: flags_raw });
    }
    let actual_payload_len = buf.len() - HEADER_SIZE;
    if payload_len as usize != actual_payload_len {
        return Err(
            DecodeError::PayloadLengthMismatch {
                header_len: payload_len,
                actual_len: actual_payload_len,
            },
        );
    }
    let header = PacketHeader { version, flags, schema_hash, tick, baseline_tick, payload_len };
    let payload = &buf[HEADER_SIZE..buf.len()];
    let sections = decode_sections(payload, limits)?;
    Ok(WirePacket { header, sections })
}

/// Encodes a packet header into the provided output buffer.
pub fn encode_header(header: &PacketHeader, out: &mut [u8]) -> (r: Result<usize, EncodeError>)
    ensures
        r is Ok <==> old(out)@.len() >= HEADER_SIZE,
        r is Ok ==> r == Ok::<usize, EncodeError>(HEADER_SIZE) && final(out)@ == splice(
            old(out)@,
            0,
            header_bytes(*header),
        ),
        r is Err ==> final(out)@ == old(out)@ && r == Err::<usize, EncodeError>(
            EncodeError::BufferTooSmall { needed: HEADER_SIZE, available: old(out)@.len() as usize },
        ),
{
    if out.len() < HEADER_SIZE {
        return Err(EncodeError::BufferTooSmall { needed: HEADER_SIZE, available: out.len() });
    }
    let ghost o = out@;
    put_le(out, 0, MAGIC as u64, 4);
    put_le(out, 4, header.version as u64, 2);
    put_le(out, 6, header.flags.raw() as u64, 2);
    put_le(out, 8, header.schema_hash, 8);
    put_le(out, 16, header.tick as u64, 4);
    put_le(out, 20, header.baseline_tick as u64, 4);
    put_le(out, 24, header.payload_len as u64, 4);
    proof {
        crate::bitstream::bits::lemma_le_bytes_len(MAGIC as nat, 4);
        crate::bitstream::bits::lemma_le_bytes_len(header.version as nat, 2);
        crate::bitstream::bits::lemma_le_bytes_len(header.flags.0 as nat, 2);
        crate::bitstream::bits::lemma_le_bytes_len(header.schema_hash as nat, 8);
        crate::bitstream::bits::lemma_le_bytes_len(header.tick as nat, 4);
        crate::bitstream::bits::lemma_le_bytes_len(header.baseline_tick as nat, 4);
        crate::bitstream::bits::lemma_le_bytes_len(header.payload_len as nat, 4);
        assert(out@ =~= splice(o, 0, header_bytes(*header)));
    }
    Ok(HEADER_SIZE)
}

/// The bytes of one framed section: tag, varint body length, body.
pub open spec fn section_bytes(tag: SectionTag, body: Seq<u8>) -> Seq<u8> {
    seq![tag_raw(tag)] + varu32_bytes(body.len() as u32) + body
}

/// Encodes a single section into the provided output buffer.
pub fn encode_section(tag: SectionTag, body: &[u8], out: &mut [u8]) -> (r: Result<
    usize,
    EncodeError,
>)
    ensures
        body@.len() > u32::MAX ==> r == Err::<usize, EncodeError>(
            EncodeError::LengthOverflow { length: body@.len() as usize },
        ),
        body@.len() <= u32::MAX ==> {
            let needed = 1 + varu32_bytes(body@.len() as u32).len() + body@.len();
            &&& r is Ok <==> needed <= old(out)@.len()
            &&& r is Ok ==> r == Ok::<usize, EncodeError>(needed as usize) && needed
                == section_bytes(tag, body@).len() && final(out)@ == splice(
                old(out)@,
                0,
                section_bytes(tag, body@),
            )
            &&& r is Err ==> r == Err::<usize, EncodeError>(
                EncodeError::BufferTooSmall {
                    needed: sat_add(1 + varu32_bytes(body@.len() as u32).len(), body@.len()) as usize,
                    available: old(out)@.len() as usize,
                },
            )
        },
        r is Err ==> final(out)@ == old(out)@,
{
    if body.len() > 0xFFFF_FFFFusize {
        return Err(EncodeError::LengthOverflow { length: body.len() });
    }
    let len_u32 = body.len() as u32;
    let len_bytes = varu32_len(len_u32);
    let needed = (1 + len_bytes).saturating_add(body.len());
    if body.len() > out.len() || 1 + len_bytes > out.len() - body.len() {
        return Err(EncodeError::BufferTooSmall { needed, available: out.len() });
    }
    let ghost o = out@;
    out[0] = tag.raw();
    let ghost o1 = out@;
    put_varu32(out, 1, len_u32);
    let ghost o2 = out@;
    put_bytes(out, 1 + len_bytes, body);
    proof {
        let sb = section_bytes(tag, body@);
        assert(sb.len() == needed);
        assert forall|j: int| 0 <= j < o.len() implies #[trigger] out@[j] == splice(o, 0, sb)[j] by {
            if j == 0 {
            } else if j < 1 + len_bytes {
                assert(sb[j] == varu32_bytes(len_u32)[j - 1]);
            } else if j < needed {
                assert(sb[j] == body@[j - 1 - len_bytes]);
            }
        }
        assert(out@ =~= splice(o, 0, sb));
    }
    Ok(needed)
}

/// Sections framed one after another.
pub open spec fn sections_bytes(items: Seq<(SectionTag, Seq<u8>)>) -> Seq<u8>
    decreases items.len(),
{
    if items.len() == 0 {
        Seq::empty()
    } else {
        section_bytes(items[0].0, items[0].1) + sections_bytes(items.drop_first())
    }
}

/// Every body fits the section length limit and a `u32`.
pub open spec fn bodies_fit(items: Seq<(SectionTag, Seq<u8>)>, limits: Limits) -> bool {
    forall|i: int|
        0 <= i < items.len() ==> #[trigger] items[i].1.len() <= limits.max_section_len
            && items[i].1.len() <= u32::MAX
}

/// Framing is undone by decoding: sections framed back to back, within the
/// section count and length limits, decode to the same tags and bodies.
pub proof fn lemma_sections_roundtrip(
    p: Seq<u8>,
    off: nat,
    count: nat,
    items: Seq<(SectionTag, Seq<u8>)>,
    limits: Limits,
)
    requires
        off <= p.len(),
        p.skip(off as int) == sections_bytes(items),
        count + items.len() <= limits.max_sections,
        bodies_fit(items, limits),
    ensures
        spec_decode_sections(p, off, count, limits) == Ok::<
            Seq<(SectionTag, Seq<u8>)>,
            DecodeError,
        >(items),
    decreases items.len(),
{
    if items.len() == 0 {
        assert(p.skip(off as int).len() == 0);
        assert(items =~= Seq::<(SectionTag, Seq<u8>)>::empty());
    } else {
        let (t, body) = items[0];
        let v = body.len() as u32;
        let enc = varu32_bytes(v);
        lemma_varu32_len(v);
        lemma_pow2_7k_4();
        let sb = section_bytes(t, body);
        let rest = sections_bytes(items.drop_first());
        assert(p.skip(off as int) == sb + rest);
        let o = off as int;
        let n = enc.len() as int;
        let bl = body.len() as int;
        assert(sb.len() == 1 + n + bl);
        assert(p.skip(o)[0] == sb[0]);
        assert(p[o] == sb[0]);
        assert(p.subrange(o + 1, o + 1 + n) =~= enc) by {
            assert forall|j: int| 0 <= j < n implies p.subrange(o + 1, o + 1 + n)[j] == enc[j] by {
                assert(p[o + 1 + j] == p.skip(o)[1 + j]);
                assert(sb[1 + j] == enc[j]);
            }
        }
        lemma_leb_scan_roundtrip(p, off + 1, 0, v);
        let end = o + 1 + n;
        assert(p.subrange(end, end + bl) =~= body) by {
            assert forall|j: int| 0 <= j < bl implies p.subrange(end, end + bl)[j] == body[j] by {
                assert(p[end + j] == p.skip(o)[1 + n + j]);
                assert(sb[1 + n + j] == body[j]);
            }
        }
        assert(p.skip(end + bl) =~= rest) by {
            assert forall|j: int| 0 <= j < rest.len() implies p.skip(end + bl)[j] == rest[j] by {
                assert(p.skip(o)[1 + n + bl + j] == (sb + rest)[sb.len() + j]);
            }
        }
        assert(bodies_fit(items.drop_first(), limits)) by {
            assert forall|i: int| 0 <= i < items.drop_first().len() implies #[trigger] items.drop_first()[i].1.len()
                <= limits.max_section_len && items.drop_first()[i].1.len() <= u32::MAX by {
                assert(items.drop_first()[i] == items[i + 1]);
            }
        }
        lemma_sections_roundtrip(p, (end + bl) as nat, count + 1, items.drop_first(), limits);
        lemma_leb_scan_bound(p, off + 1, 0);
        assert(items[0].1.len() <= limits.max_section_len);
        assert(tag_of(p[o]) == Some(t));
        assert(seq![(t, body)] + items.drop_first() =~= items);
    }
}

/// A header written by `encode_header` is read back by the header check of
/// `decode_packet` when its fields are consistent: current version, valid
/// flags, a baseline tick that fits the snapshot kind, the payload length of
/// what follows, and a packet within the size limit.
pub proof fn lemma_header_roundtrip(h: PacketHeader, payload: Seq<u8>, limits: Limits)
    requires
        h.version == VERSION,
        valid_v2(h.flags.0),
        !has_session(h.flags.0) && has_full(h.flags.0) ==> h.baseline_tick == 0,
        !has_session(h.flags.0) && has_delta(h.flags.0) ==> h.baseline_tick != 0,
        h.payload_len == payload.len(),
        HEADER_SIZE + payload.len() <= limits.max_packet_bytes,
    ensures
        spec_decode_header(header_bytes(h) + payload, limits) == Ok::<PacketHeader, DecodeError>(h),
{
    let buf = header_bytes(h) + payload;
    let m = le_bytes(MAGIC as nat, 4);
    let ve = le_bytes(h.version as nat, 2);
    let f = le_bytes(h.flags.0 as nat, 2);
    let sh = le_bytes(h.schema_hash as nat, 8);
    let t = le_bytes(h.tick as nat, 4);
    let bt = le_bytes(h.baseline_tick as nat, 4);
    let pl = le_bytes(h.payload_len as nat, 4);
    lemma_le_bytes_len(MAGIC as nat, 4);
    lemma_le_bytes_len(h.version as nat, 2);
    lemma_le_bytes_len(h.flags.0 as nat, 2);
    lemma_le_bytes_len(h.schema_hash as nat, 8);
    lemma_le_bytes_len(h.tick as nat, 4);
    lemma_le_bytes_len(h.baseline_tick as nat, 4);
    lemma_le_bytes_len(h.payload_len as nat, 4);
    assert(buf.subrange(0, 4) =~= m);
    assert(buf.subrange(4, 6) =~= ve);
    assert(buf.subrange(6, 8) =~= f);
    assert(buf.subrange(8, 16) =~= sh);
    assert(buf.subrange(16, 20) =~= t);
    assert(buf.subrange(20, 24) =~= bt);
    assert(buf.subrange(24, 28) =~= pl);
    assert(vstd::arithmetic::power::pow(256, 2) == 0x10000) by {
        reveal_with_fuel(vstd::arithmetic::power::pow, 3);
    }
    assert(vstd::arithmetic::power::pow(256, 4) == 0x1_0000_0000) by {
        reveal_with_fuel(vstd::arithmetic::power::pow, 5);
    }
    assert(vstd::arithmetic::power::pow(256, 8) == 0x1_0000_0000_0000_0000) by {
        reveal_with_fuel(vstd::arithmetic::power::pow, 9);
    }
    lemma_le_roundtrip(MAGIC as nat, 4);
    lemma_le_roundtrip(h.version as nat, 2);
    lemma_le_roundtrip(h.flags.0 as nat, 2);
    lemma_le_roundtrip(h.schema_hash as nat, 8);
    lemma_le_roundtrip(h.tick as nat, 4);
    lemma_le_roundtrip(h.baseline_tick as nat, 4);
    lemma_le_roundtrip(h.payload_len as nat, 4);
}

} // verus!
