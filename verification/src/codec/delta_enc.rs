//! Delta snapshot packets: which sections a delta has, their bodies, and the
//! packet and compact-session framings around them.
use super::delta_body::{
    enc_delta_create_body, enc_destroy_body, enc_masked_body, encode_create_body, encode_destroy_body,
    encode_update_body_masked, idx_nats,
};
use super::delta_sparse::{enc_sparse_body, encode_update_body_sparse_packed, encode_update_body_sparse_varint};
use super::diff::{
    diff_counts, diff_counts_spec, ensure_entities_sorted, entity_walk, nat_pairs, nats, order_error,
    select_encoding_spec, select_update_encoding, walk_entities, DiffCounts, EntityWalk, UpdateEncoding,
};
use super::error::{CodecError, CodecResult, LimitKind};
use super::full::{hash_of, write_header};
use super::limits::CodecLimits;
use super::scratch::CodecScratch;
use super::section::{frame_section, framed, section_at, section_total, SECTION_PREFIX};
use super::snapshot::{entities_view, EntitySnapshot, EntityV, Snapshot};
use super::types::SnapshotTick;
use crate::bitstream::bits::{bits_of, cap_bits, varu32_bytes};
use crate::bitstream::BitWriter;
use crate::schema::{schema_hash, ComponentDef, Schema};
use crate::wire::{header_bytes, PacketFlags, PacketHeader, SectionTag, HEADER_SIZE};
use vstd::prelude::*;

verus! {

/// Which body a delta section carries.
#[derive(Debug, Clone, Copy, PartialEq, Eq, Structural)]
pub enum DeltaBody {
    Destroy,
    Create,
    Masked,
    SparseVarint,
    SparsePacked,
}

/// How updates are encoded: chosen by size, or always sparse packed.
#[derive(Debug, Clone, Copy, PartialEq, Eq, Structural)]
pub enum EncodeUpdateMode {
    Auto,
    Sparse,
}

/// The section tag of a body kind.
pub open spec fn body_tag(k: DeltaBody) -> SectionTag {
    match k {
        DeltaBody::Destroy => SectionTag::EntityDestroy,
        DeltaBody::Create => SectionTag::EntityCreate,
        DeltaBody::Masked => SectionTag::EntityUpdate,
        DeltaBody::SparseVarint => SectionTag::EntityUpdateSparse,
        DeltaBody::SparsePacked => SectionTag::EntityUpdateSparsePacked,
    }
}

/// The bits of a delta section body of kind `k`, written from empty with
/// capacity `cap`.
#[verifier::opaque]
pub open spec fn delta_body(
    k: DeltaBody,
    cap: nat,
    comps: Seq<ComponentDef>,
    b: Seq<EntityV>,
    c: Seq<EntityV>,
    counts: (nat, nat, nat),
    limits: CodecLimits,
) -> Result<Seq<bool>, CodecError> {
    let w = entity_walk(b, c);
    match k {
        DeltaBody::Destroy => enc_destroy_body(Seq::empty(), cap, b, w.0, limits),
        DeltaBody::Create => enc_delta_create_body(Seq::empty(), cap, comps, c, w.1, limits),
        DeltaBody::Masked => enc_masked_body(Seq::empty(), cap, comps, b, c, w.2, counts.1, limits),
        DeltaBody::SparseVarint => enc_sparse_body(Seq::empty(), cap, comps, b, c, w.2, counts.1, limits, false),
        DeltaBody::SparsePacked => enc_sparse_body(Seq::empty(), cap, comps, b, c, w.2, counts.1, limits, true),
    }
}

/// Emitting a section of kind `k` after `used` of `room` bytes: the bytes used
/// after it and its body bits.
#[verifier::opaque]
pub open spec fn emit(
    k: DeltaBody,
    comps: Seq<ComponentDef>,
    b: Seq<EntityV>,
    c: Seq<EntityV>,
    counts: (nat, nat, nat),
    limits: CodecLimits,
    room: nat,
    used: nat,
) -> Result<(nat, Seq<bool>), CodecError> {
    let avail = (room - used) as nat;
    let body = delta_body(k, cap_bits((avail - SECTION_PREFIX) as nat), comps, b, c, counts, limits);
    match framed(body, avail, limits) {
        Err(e) => Err(e),
        Ok(t) => match body {
            Ok(w) => Ok((used + t, w)),
            Err(e) => Err(e),
        },
    }
}

/// A section step: after `prev`, emit a section of kind `k` when `doit`.
pub open spec fn step(
    prev: Result<(nat, Seq<(SectionTag, Seq<bool>)>), CodecError>,
    doit: bool,
    k: DeltaBody,
    comps: Seq<ComponentDef>,
    b: Seq<EntityV>,
    c: Seq<EntityV>,
    counts: (nat, nat, nat),
    limits: CodecLimits,
    room: nat,
) -> Result<(nat, Seq<(SectionTag, Seq<bool>)>), CodecError> {
    match prev {
        Err(e) => Err(e),
        Ok((u, s)) => if !doit {
            Ok((u, s))
        } else {
            match emit(k, comps, b, c, counts, limits, room, u) {
                Err(e) => Err(e),
                Ok((u2, w)) => Ok((u2, s.push((body_tag(k), w)))),
            }
        },
    }
}

/// The update body kind for a mode.
pub open spec fn update_kind(mode: EncodeUpdateMode, comps: Seq<ComponentDef>, b: Seq<EntityV>, c: Seq<EntityV>, limits: CodecLimits) -> Result<
    DeltaBody,
    CodecError,
> {
    match mode {
        EncodeUpdateMode::Sparse => Ok(DeltaBody::SparsePacked),
        EncodeUpdateMode::Auto => match select_encoding_spec(comps, b, c, limits) {
            Err(e) => Err(e),
            Ok(UpdateEncoding::Masked) => Ok(DeltaBody::Masked),
            Ok(UpdateEncoding::Sparse) => Ok(DeltaBody::SparseVarint),
        },
    }
}

/// The sections of a delta once its counts are known: destroys, creates,
/// then updates, each only when there are some.
#[verifier::opaque]
pub open spec fn delta_sections(
    comps: Seq<ComponentDef>,
    b: Seq<EntityV>,
    c: Seq<EntityV>,
    counts: (nat, nat, nat),
    limits: CodecLimits,
    room: nat,
    mode: EncodeUpdateMode,
) -> Result<(nat, Seq<(SectionTag, Seq<bool>)>), CodecError> {
    let s0 = Ok((0nat, Seq::<(SectionTag, Seq<bool>)>::empty()));
    let s1 = step(s0, counts.2 > 0, DeltaBody::Destroy, comps, b, c, counts, limits, room);
    let s2 = step(s1, counts.0 > 0, DeltaBody::Create, comps, b, c, counts, limits, room);
    match s2 {
        Err(e) => Err(e),
        Ok(_) => if counts.1 == 0 {
            s2
        } else {
            match update_kind(mode, comps, b, c, limits) {
                Err(e) => Err(e),
                Ok(k) => step(s2, true, k, comps, b, c, counts, limits, room),
            }
        },
    }
}

/// The sections of a delta payload written into `room` bytes: bytes used
/// and each section's tag and body bits.
pub open spec fn delta_payload(
    comps: Seq<ComponentDef>,
    baseline_tick: SnapshotTick,
    b: (SnapshotTick, Seq<EntityV>),
    c: (SnapshotTick, Seq<EntityV>),
    limits: CodecLimits,
    room: nat,
    mode: EncodeUpdateMode,
) -> Result<(nat, Seq<(SectionTag, Seq<bool>)>), CodecError> {
    if b.0 != baseline_tick {
        Err(CodecError::BaselineTickMismatch { expected: b.0@, found: baseline_tick@ })
    } else if order_error(b.1, 0) is Some {
        Err(order_error(b.1, 0)->Some_0)
    } else if order_error(c.1, 0) is Some {
        Err(order_error(c.1, 0)->Some_0)
    } else {
        match diff_counts_spec(comps, b.1, c.1, limits) {
            Err(e) => Err(e),
            Ok(counts) => if counts.0 > limits.max_entities_create {
                Err(
                    CodecError::LimitsExceeded {
                        kind: LimitKind::EntitiesCreate,
                        limit: limits.max_entities_create,
                        actual: counts.0 as usize,
                    },
                )
            } else if counts.1 > limits.max_entities_update {
                Err(
                    CodecError::LimitsExceeded {
                        kind: LimitKind::EntitiesUpdate,
                        limit: limits.max_entities_update,
                        actual: counts.1 as usize,
                    },
                )
            } else if counts.2 > limits.max_entities_destroy {
                Err(
                    CodecError::LimitsExceeded {
                        kind: LimitKind::EntitiesDestroy,
                        limit: limits.max_entities_destroy,
                        actual: counts.2 as usize,
                    },
                )
            } else {
                delta_sections(comps, b.1, c.1, counts, limits, room, mode)
            },
        }
    }
}

/// `p` holds the sections `secs` back to back from index `off` on.
pub open spec fn sections_at(p: Seq<u8>, off: int, secs: Seq<(SectionTag, Seq<bool>)>) -> bool
    decreases secs.len(),
{
    if secs.len() == 0 {
        true
    } else {
        &&& section_at(p, off, secs[0].0, secs[0].1)
        &&& sections_at(p, off + section_total(secs[0].1.len() / 8), secs.drop_first())
    }
}

/// Bytes taken by sections.
pub open spec fn sections_len(secs: Seq<(SectionTag, Seq<bool>)>) -> nat
    decreases secs.len(),
{
    if secs.len() == 0 {
        0
    } else {
        section_total(secs[0].1.len() / 8) + sections_len(secs.drop_first())
    }
}

pub proof fn lemma_sections_len_push(secs: Seq<(SectionTag, Seq<bool>)>, x: (SectionTag, Seq<bool>))
    ensures
        sections_len(secs.push(x)) == sections_len(secs) + section_total(x.1.len() / 8),
    decreases secs.len(),
{
    let s2 = secs.push(x);
    if secs.len() > 0 {
        assert(s2.drop_first() =~= secs.drop_first().push(x));
        assert(s2[0] == secs[0]);
        lemma_sections_len_push(secs.drop_first(), x);
        assert(sections_len(s2) == section_total(s2[0].1.len() / 8) + sections_len(s2.drop_first()));
        assert(sections_len(secs) == section_total(secs[0].1.len() / 8) + sections_len(secs.drop_first()));
    } else {
        assert(s2.drop_first() =~= Seq::<(SectionTag, Seq<bool>)>::empty());
        assert(s2[0] == x);
        assert(sections_len(s2) == section_total(s2[0].1.len() / 8) + sections_len(s2.drop_first()));
        assert(sections_len(s2.drop_first()) == 0);
    }
}

proof fn lemma_sections_at_push(p: Seq<u8>, off: int, secs: Seq<(SectionTag, Seq<bool>)>, x: (SectionTag, Seq<bool>))
    requires
        sections_at(p, off, secs),
        section_at(p, off + sections_len(secs), x.0, x.1),
    ensures
        sections_at(p, off, secs.push(x)),
    decreases secs.len(),
{
    let s2 = secs.push(x);
    if secs.len() > 0 {
        assert(s2.drop_first() =~= secs.drop_first().push(x));
        assert(s2[0] == secs[0]);
        assert(sections_len(secs) == section_total(secs[0].1.len() / 8) + sections_len(secs.drop_first()));
        lemma_sections_at_push(p, off + section_total(secs[0].1.len() / 8), secs.drop_first(), x);
    } else {
        assert(s2.drop_first() =~= Seq::<(SectionTag, Seq<bool>)>::empty());
        assert(s2[0] == x);
        assert(sections_len(secs) == 0);
        assert(sections_at(p, off + section_total(x.1.len() / 8), s2.drop_first()));
    }
}

proof fn lemma_sections_at_keep(a: Seq<u8>, b: Seq<u8>, k: int, off: int, secs: Seq<(SectionTag, Seq<bool>)>)
    requires
        0 <= k <= off,
        a.len() == b.len(),
        a.skip(k) == b.skip(k),
        sections_at(a, off, secs),
        off + sections_len(secs) <= a.len(),
    ensures
        sections_at(b, off, secs),
    decreases secs.len(),
{
    if secs.len() > 0 {
        super::section::lemma_section_at_keep(a, b, k, off, secs[0].0, secs[0].1);
        lemma_sections_at_keep(a, b, k, off + section_total(secs[0].1.len() / 8), secs.drop_first());
    }
}

/// Sections stay where they are when only bytes at or after `from` change,
/// provided they end before `from`.
proof fn lemma_sections_at_prefix(a: Seq<u8>, b: Seq<u8>, from: int, off: int, secs: Seq<(SectionTag, Seq<bool>)>)
    requires
        0 <= off,
        off + sections_len(secs) <= from <= a.len(),
        a.len() == b.len(),
        a.take(from) == b.take(from),
        sections_at(a, off, secs),
    ensures
        sections_at(b, off, secs),
    decreases secs.len(),
{
    if secs.len() > 0 {
        let (tag, w) = secs[0];
        let n = w.len() / 8;
        let vl = varu32_bytes(n as u32);
        assert(a[off] == a.take(from)[off]);
        assert(b[off] == b.take(from)[off]);
        assert(a.subrange(off + 1, off + 1 + vl.len()) =~= b.subrange(off + 1, off + 1 + vl.len())) by {
            assert forall|j: int| 0 <= j < vl.len() implies #[trigger] a.subrange(off + 1, off + 1 + vl.len())[j]
                == b.subrange(off + 1, off + 1 + vl.len())[j] by {
                assert(a[off + 1 + j] == a.take(from)[off + 1 + j]);
                assert(b[off + 1 + j] == b.take(from)[off + 1 + j]);
            }
        }
        let s = off + 1 + vl.len();
        assert(a.subrange(s, s + n) =~= b.subrange(s, s + n)) by {
            assert forall|j: int| 0 <= j < n implies #[trigger] a.subrange(s, s + n)[j] == b.subrange(s, s + n)[j] by {
                assert(a[s + j] == a.take(from)[s + j]);
                assert(b[s + j] == b.take(from)[s + j]);
            }
        }
        lemma_sections_at_prefix(a, b, from, off + section_total(n), secs.drop_first());
    }
}

#[allow(clippy::too_many_arguments)]
fn write_body(
    kind: DeltaBody,
    comps: &Vec<ComponentDef>,
    baseline: &[EntitySnapshot],
    current: &[EntitySnapshot],
    walk: &EntityWalk,
    counts: &DiffCounts,
    limits: &CodecLimits,
    scratch: &mut CodecScratch,
    writer: &mut BitWriter,
) -> (r: CodecResult<()>)
    requires
        old(writer).written() == Seq::<bool>::empty(),
        forall|k: int| 0 <= k < walk.destroys@.len() ==> walk.destroys@[k] < baseline@.len(),
        forall|k: int| 0 <= k < walk.creates@.len() ==> walk.creates@[k] < current@.len(),
        forall|k: int| 0 <= k < walk.pairs@.len() ==> walk.pairs@[k].0 < baseline@.len() && walk.pairs@[k].1 < current@.len(),
        (nats(walk.destroys@), nats(walk.creates@), nat_pairs(walk.pairs@)) == entity_walk(
            entities_view(baseline@),
            entities_view(current@),
        ),
    ensures
        final(writer).same_buffer(old(writer)),
        final(final(writer).target())@ == final(old(writer).target())@,
        match delta_body(
            kind,
            old(writer).capacity(),
            comps@,
            entities_view(baseline@),
            entities_view(current@),
            (counts.creates as nat, counts.updates as nat, counts.destroys as nat),
            *limits,
        ) {
            Ok(w) => r is Ok && final(writer).written() == w,
            Err(e) => r == Err::<(), CodecError>(e),
        },
        r is Ok ==> final(writer).written().len() % 8 == 0,
{
    proof {
        reveal(delta_body);
        assert(idx_nats(walk.destroys@) == nats(walk.destroys@));
        assert(idx_nats(walk.creates@) == nats(walk.creates@));
    }
    match kind {
        DeltaBody::Destroy => encode_destroy_body(baseline, &walk.destroys, limits, writer),
        DeltaBody::Create => encode_create_body(comps, current, &walk.creates, limits, writer),
        DeltaBody::Masked => encode_update_body_masked(
            comps,
            baseline,
            current,
            &walk.pairs,
            counts.updates,
            limits,
            scratch,
            writer,
        ),
        DeltaBody::SparseVarint => encode_update_body_sparse_varint(
            comps,
            baseline,
            current,
            &walk.pairs,
            counts.updates,
            limits,
            scratch,
            writer,
        ),
        DeltaBody::SparsePacked => encode_update_body_sparse_packed(
            comps,
            baseline,
            current,
            &walk.pairs,
            counts.updates,
            limits,
            scratch,
            writer,
        ),
    }
}

#[allow(clippy::too_many_arguments)]
fn write_delta_section(
    kind: DeltaBody,
    comps: &Vec<ComponentDef>,
    baseline: &[EntitySnapshot],
    current: &[EntitySnapshot],
    walk: &EntityWalk,
    counts: &DiffCounts,
    limits: &CodecLimits,
    scratch: &mut CodecScratch,
    out: &mut [u8],
    base: usize,
    used: usize,
) -> (r: CodecResult<usize>)
    requires
        base + used <= old(out)@.len(),
        (nats(walk.destroys@), nats(walk.creates@), nat_pairs(walk.pairs@)) == entity_walk(
            entities_view(baseline@),
            entities_view(current@),
        ),
        forall|k: int| 0 <= k < walk.destroys@.len() ==> walk.destroys@[k] < baseline@.len(),
        forall|k: int| 0 <= k < walk.creates@.len() ==> walk.creates@[k] < current@.len(),
        forall|k: int| 0 <= k < walk.pairs@.len() ==> walk.pairs@[k].0 < baseline@.len() && walk.pairs@[k].1 < current@.len(),
    ensures
        final(out)@.len() == old(out)@.len(),
        final(out)@.take(base + used) == old(out)@.take(base + used),
        match emit(
            kind,
            comps@,
            entities_view(baseline@),
            entities_view(current@),
            (counts.creates as nat, counts.updates as nat, counts.destroys as nat),
            *limits,
            (old(out)@.len() - base) as nat,
            used as nat,
        ) {
            Ok((u, w)) => (r matches Ok(t) && t == section_total(w.len() / 8)) && section_at(
                final(out)@,
                base + used,
                body_tag(kind),
                w,
            ) && u == used + section_total(w.len() / 8) && base + used + section_total(w.len() / 8)
                <= old(out)@.len(),
            Err(e) => r == Err::<usize, CodecError>(e),
        },
{
    proof {
        reveal(emit);
    }
    let len = out.len();
    let off = base + used;
    let avail = len - off;
    if avail < SECTION_PREFIX {
        return Err(CodecError::OutputTooSmall { needed: SECTION_PREFIX, available: avail });
    }
    let body_room = avail - SECTION_PREFIX;
    let mut tmp: Vec<u8> = vec![0u8; body_room];
    let (body_len, w) = {
        let mut writer = BitWriter::new(tmp.as_mut_slice());
        let res = write_body(kind, comps, baseline, current, walk, counts, limits, scratch, &mut writer);
        let ghost w = writer.written();
        match res {
            Ok(()) => {},
            Err(e) => {
                return Err(e);
            },
        }
        let n = writer.finish();
        (n, Ghost(w))
    };
    let ghost wv = w@;
    frame_section(body_tag_exec(kind), &tmp, body_len, out, off, limits, Ghost(wv))
}

#[allow(clippy::too_many_arguments)]
fn encode_delta_payload_with_mode(
    comps: &Vec<ComponentDef>,
    baseline_tick: SnapshotTick,
    baseline: &Snapshot,
    current: &Snapshot,
    limits: &CodecLimits,
    scratch: &mut CodecScratch,
    out: &mut [u8],
    base: usize,
    mode: EncodeUpdateMode,
) -> (r: CodecResult<usize>)
    requires
        base <= old(out)@.len(),
    ensures
        final(out)@.len() == old(out)@.len(),
        final(out)@.take(base as int) == old(out)@.take(base as int),
        match delta_payload(comps@, baseline_tick, baseline@, current@, *limits, (old(out)@.len() - base) as nat, mode) {
            Ok((u, secs)) => r == Ok::<usize, CodecError>(u as usize) && u == sections_len(secs) && base + u
                <= old(out)@.len() && sections_at(final(out)@, base as int, secs),
            Err(e) => r == Err::<usize, CodecError>(e),
        },
{
    let len = out.len();
    if baseline.tick != baseline_tick {
        return Err(CodecError::BaselineTickMismatch { expected: baseline.tick.raw(), found: baseline_tick.raw() });
    }
    ensure_entities_sorted(&baseline.entities)?;
    ensure_entities_sorted(&current.entities)?;
    let walk = walk_entities(&baseline.entities, &current.entities);
    let counts = diff_counts(comps, &baseline.entities, &current.entities, limits, &walk)?;
    if counts.creates > limits.max_entities_create {
        return Err(
            CodecError::LimitsExceeded {
                kind: LimitKind::EntitiesCreate,
                limit: limits.max_entities_create,
                actual: counts.creates,
            },
        );
    }
    if counts.updates > limits.max_entities_update {
        return Err(
            CodecError::LimitsExceeded {
                kind: LimitKind::EntitiesUpdate,
                limit: limits.max_entities_update,
                actual: counts.updates,
            },
        );
    }
    if counts.destroys > limits.max_entities_destroy {
        return Err(
            CodecError::LimitsExceeded {
                kind: LimitKind::EntitiesDestroy,
                limit: limits.max_entities_destroy,
                actual: counts.destroys,
            },
        );
    }
    write_delta_sections(comps, &baseline.entities, &current.entities, &walk, &counts, limits, scratch, out, base, mode)
}

#[allow(clippy::too_many_arguments)]
#[verifier::rlimit(30)]
fn write_delta_sections(
    comps: &Vec<ComponentDef>,
    baseline: &Vec<EntitySnapshot>,
    current: &Vec<EntitySnapshot>,
    walk: &EntityWalk,
    counts: &DiffCounts,
    limits: &CodecLimits,
    scratch: &mut CodecScratch,
    out: &mut [u8],
    base: usize,
    mode: EncodeUpdateMode,
) -> (r: CodecResult<usize>)
    requires
        base <= old(out)@.len(),
        (nats(walk.destroys@), nats(walk.creates@), nat_pairs(walk.pairs@)) == entity_walk(
            entities_view(baseline@),
            entities_view(current@),
        ),
        forall|k: int| 0 <= k < walk.destroys@.len() ==> walk.destroys@[k] < baseline@.len(),
        forall|k: int| 0 <= k < walk.creates@.len() ==> walk.creates@[k] < current@.len(),
        forall|k: int| 0 <= k < walk.pairs@.len() ==> walk.pairs@[k].0 < baseline@.len() && walk.pairs@[k].1 < current@.len(),
    ensures
        final(out)@.len() == old(out)@.len(),
        final(out)@.take(base as int) == old(out)@.take(base as int),
        match delta_sections(
            comps@,
            entities_view(baseline@),
            entities_view(current@),
            (counts.creates as nat, counts.updates as nat, counts.destroys as nat),
            *limits,
            (old(out)@.len() - base) as nat,
            mode,
        ) {
            Ok((u, secs)) => r == Ok::<usize, CodecError>(u as usize) && u == sections_len(secs) && base + u
                <= old(out)@.len() && sections_at(final(out)@, base as int, secs),
            Err(e) => r == Err::<usize, CodecError>(e),
        },
{
    proof {
        reveal(delta_sections);
    }
    let len = out.len();
    let ghost comps_v = comps@;
    let ghost b = entities_view(baseline@);
    let ghost c = entities_view(current@);
    let ghost cts = (counts.creates as nat, counts.updates as nat, counts.destroys as nat);
    let ghost room = (out@.len() - base) as nat;
    let ghost o0 = out@;
    let ghost mut secs = Seq::<(SectionTag, Seq<bool>)>::empty();
    let mut used: usize = 0;
    assert(sections_len(secs) == 0);
    if counts.destroys > 0 {
        let ghost pre = out@;
        let t = write_delta_section(
            DeltaBody::Destroy,
            comps,
            baseline,
            current,
            &walk,
            &counts,
            limits,
            scratch,
            out,
            base,
            used,
        )?;
        proof {
            let w = emit(DeltaBody::Destroy, comps_v, b, c, cts, *limits, room, 0)->Ok_0.1;
            assert(sections_len(secs) == 0);
            assert(t == section_total(w.len() / 8));
            lemma_sections_len_push(secs, (body_tag(DeltaBody::Destroy), w));
            lemma_sections_at_push(out@, base as int, secs, (body_tag(DeltaBody::Destroy), w));
            secs = secs.push((body_tag(DeltaBody::Destroy), w));
            assert(t == sections_len(secs));
        }
        used = used + t;
    }
    assert(used == sections_len(secs));
    assert(sections_at(out@, base as int, secs));
    if counts.creates > 0 {
        let ghost pre = out@;
        let ghost used0 = used;
        let t = write_delta_section(
            DeltaBody::Create,
            comps,
            baseline,
            current,
            &walk,
            &counts,
            limits,
            scratch,
            out,
            base,
            used,
        )?;
        proof {
            let w = emit(DeltaBody::Create, comps_v, b, c, cts, *limits, room, used0 as nat)->Ok_0.1;
            lemma_sections_at_prefix(pre, out@, (base + used0) as int, base as int, secs);
            lemma_sections_len_push(secs, (body_tag(DeltaBody::Create), w));
            lemma_sections_at_push(out@, base as int, secs, (body_tag(DeltaBody::Create), w));
            secs = secs.push((body_tag(DeltaBody::Create), w));
        }
        used = used + t;
    }
    if counts.updates > 0 {
        let kind = match mode {
            EncodeUpdateMode::Sparse => DeltaBody::SparsePacked,
            EncodeUpdateMode::Auto => match select_update_encoding(
                comps,
                baseline,
                current,
                limits,
                scratch,
                &walk,
            )? {
                UpdateEncoding::Masked => DeltaBody::Masked,
                UpdateEncoding::Sparse => DeltaBody::SparseVarint,
            },
        };
        let ghost pre = out@;
        let ghost used0 = used;
        let t = write_delta_section(
            kind,
            comps,
            baseline,
            current,
            &walk,
            &counts,
            limits,
            scratch,
            out,
            base,
            used,
        )?;
        proof {
            let w = emit(kind, comps_v, b, c, cts, *limits, room, used0 as nat)->Ok_0.1;
            lemma_sections_at_prefix(pre, out@, (base + used0) as int, base as int, secs);
            lemma_sections_len_push(secs, (body_tag(kind), w));
            lemma_sections_at_push(out@, base as int, secs, (body_tag(kind), w));
            secs = secs.push((body_tag(kind), w));
        }
        used = used + t;
    }
    Ok(used)
}

/// The section tag of a body kind.
pub fn body_tag_exec(k: DeltaBody) -> (t: SectionTag)
    ensures
        t == body_tag(k),
{
    match k {
        DeltaBody::Destroy => SectionTag::EntityDestroy,
        DeltaBody::Create => SectionTag::EntityCreate,
        DeltaBody::Masked => SectionTag::EntityUpdate,
        DeltaBody::SparseVarint => SectionTag::EntityUpdateSparse,
        DeltaBody::SparsePacked => SectionTag::EntityUpdateSparsePacked,
    }
}

/// The header of a delta snapshot packet.
pub open spec fn delta_header(comps: Seq<ComponentDef>, tick: SnapshotTick, baseline_tick: SnapshotTick, payload_len: nat) -> PacketHeader {
    PacketHeader {
        version: crate::wire::VERSION,
        flags: PacketFlags(2),
        schema_hash: hash_of(comps),
        tick: tick@,
        baseline_tick: baseline_tick@,
        payload_len: payload_len as u32,
    }
}

/// What encoding a delta packet into `out_len` bytes gives: the payload
/// length and sections, or the error.
pub open spec fn delta_plan(
    comps: Seq<ComponentDef>,
    baseline_tick: SnapshotTick,
    b: (SnapshotTick, Seq<EntityV>),
    c: (SnapshotTick, Seq<EntityV>),
    limits: CodecLimits,
    out_len: nat,
    mode: EncodeUpdateMode,
) -> Result<(nat, Seq<(SectionTag, Seq<bool>)>), CodecError> {
    if out_len < HEADER_SIZE {
        Err(CodecError::OutputTooSmall { needed: HEADER_SIZE, available: out_len as usize })
    } else {
        delta_payload(comps, baseline_tick, b, c, limits, (out_len - HEADER_SIZE) as nat, mode)
    }
}

#[allow(clippy::too_many_arguments)]
fn encode_delta_snapshot_with_scratch_mode(
    schema: &Schema,
    tick: SnapshotTick,
    baseline_tick: SnapshotTick,
    baseline: &Snapshot,
    current: &Snapshot,
    limits: &CodecLimits,
    scratch: &mut CodecScratch,
    out: &mut [u8],
    mode: EncodeUpdateMode,
) -> (r: CodecResult<usize>)
    ensures
        final(out)@.len() == old(out)@.len(),
        old(out)@.len() < HEADER_SIZE ==> final(out)@ == old(out)@,
        match delta_plan(schema.components@, baseline_tick, baseline@, current@, *limits, old(out)@.len() as nat, mode) {
            Ok((u, secs)) => r == Ok::<usize, CodecError>((HEADER_SIZE + u) as usize) && final(out)@.take(HEADER_SIZE as int)
                == header_bytes(delta_header(schema.components@, tick, baseline_tick, u)) && sections_at(
                final(out)@,
                HEADER_SIZE as int,
                secs,
            ),
            Err(e) => r == Err::<usize, CodecError>(e),
        },
{
    let len = out.len();
    if len < HEADER_SIZE {
        return Err(CodecError::OutputTooSmall { needed: HEADER_SIZE, available: len });
    }
    let payload_len = encode_delta_payload_with_mode(
        &schema.components,
        baseline_tick,
        baseline,
        current,
        limits,
        scratch,
        out,
        HEADER_SIZE,
        mode,
    )?;
    let header = PacketHeader::delta_snapshot(schema_hash(schema), tick.raw(), baseline_tick.raw(), payload_len as u32);
    let ghost before = out@;
    write_header(&header, out);
    proof {
        let secs = delta_payload(schema.components@, baseline_tick, baseline@, current@, *limits, (len - HEADER_SIZE) as nat, mode)->Ok_0.1;
        lemma_sections_at_keep(before, out@, HEADER_SIZE as int, HEADER_SIZE as int, secs);
    }
    Ok(HEADER_SIZE + payload_len)
}

/// Encodes a delta snapshot packet, choosing masked or sparse updates by size.
pub fn encode_delta_snapshot(
    schema: &Schema,
    tick: SnapshotTick,
    baseline_tick: SnapshotTick,
    baseline: &Snapshot,
    current: &Snapshot,
    limits: &CodecLimits,
    out: &mut [u8],
) -> (r: CodecResult<usize>)
    ensures
        final(out)@.len() == old(out)@.len(),
        old(out)@.len() < HEADER_SIZE ==> final(out)@ == old(out)@,
        match delta_plan(schema.components@, baseline_tick, baseline@, current@, *limits, old(out)@.len() as nat, EncodeUpdateMode::Auto) {
            Ok((u, secs)) => r == Ok::<usize, CodecError>((HEADER_SIZE + u) as usize) && final(out)@.take(HEADER_SIZE as int)
                == header_bytes(delta_header(schema.components@, tick, baseline_tick, u)) && sections_at(
                final(out)@,
                HEADER_SIZE as int,
                secs,
            ),
            Err(e) => r == Err::<usize, CodecError>(e),
        },
{
    let mut scratch = CodecScratch::new();
    encode_delta_snapshot_with_scratch(schema, tick, baseline_tick, baseline, current, limits, &mut scratch, out)
}

/// Encodes a delta snapshot packet with caller-provided scratch buffers.
pub fn encode_delta_snapshot_with_scratch(
    schema: &Schema,
    tick: SnapshotTick,
    baseline_tick: SnapshotTick,
    baseline: &Snapshot,
    current: &Snapshot,
    limits: &CodecLimits,
    scratch: &mut CodecScratch,
    out: &mut [u8],
) -> (r: CodecResult<usize>)
    ensures
        final(out)@.len() == old(out)@.len(),
        old(out)@.len() < HEADER_SIZE ==> final(out)@ == old(out)@,
        match delta_plan(schema.components@, baseline_tick, baseline@, current@, *limits, old(out)@.len() as nat, EncodeUpdateMode::Auto) {
            Ok((u, secs)) => r == Ok::<usize, CodecError>((HEADER_SIZE + u) as usize) && final(out)@.take(HEADER_SIZE as int)
                == header_bytes(delta_header(schema.components@, tick, baseline_tick, u)) && sections_at(
                final(out)@,
                HEADER_SIZE as int,
                secs,
            ),
            Err(e) => r == Err::<usize, CodecError>(e),
        },
{
    encode_delta_snapshot_with_scratch_mode(
        schema,
        tick,
        baseline_tick,
        baseline,
        current,
        limits,
        scratch,
        out,
        EncodeUpdateMode::Auto,
    )
}

/// Encodes a delta snapshot packet for a client, always with sparse packed
/// updates.
pub fn encode_delta_snapshot_for_client(
    schema: &Schema,
    tick: SnapshotTick,
    baseline_tick: SnapshotTick,
    baseline: &Snapshot,
    current: &Snapshot,
    limits: &CodecLimits,
    out: &mut [u8],
) -> (r: CodecResult<usize>)
    ensures
        final(out)@.len() == old(out)@.len(),
        old(out)@.len() < HEADER_SIZE ==> final(out)@ == old(out)@,
        match delta_plan(schema.components@, baseline_tick, baseline@, current@, *limits, old(out)@.len() as nat, EncodeUpdateMode::Sparse) {
            Ok((u, secs)) => r == Ok::<usize, CodecError>((HEADER_SIZE + u) as usize) && final(out)@.take(HEADER_SIZE as int)
                == header_bytes(delta_header(schema.components@, tick, baseline_tick, u)) && sections_at(
                final(out)@,
                HEADER_SIZE as int,
                secs,
            ),
            Err(e) => r == Err::<usize, CodecError>(e),
        },
{
    let mut scratch = CodecScratch::new();
    encode_delta_snapshot_for_client_with_scratch(schema, tick, baseline_tick, baseline, current, limits, &mut scratch, out)
}

/// Encodes a client delta packet with caller-provided scratch buffers.
pub fn encode_delta_snapshot_for_client_with_scratch(
    schema: &Schema,
    tick: SnapshotTick,
    baseline_tick: SnapshotTick,
    baseline: &Snapshot,
    current: &Snapshot,
    limits: &CodecLimits,
    scratch: &mut CodecScratch,
    out: &mut [u8],
) -> (r: CodecResult<usize>)
    ensures
        final(out)@.len() == old(out)@.len(),
        old(out)@.len() < HEADER_SIZE ==> final(out)@ == old(out)@,
        match delta_plan(schema.components@, baseline_tick, baseline@, current@, *limits, old(out)@.len() as nat, EncodeUpdateMode::Sparse) {
            Ok((u, secs)) => r == Ok::<usize, CodecError>((HEADER_SIZE + u) as usize) && final(out)@.take(HEADER_SIZE as int)
                == header_bytes(delta_header(schema.components@, tick, baseline_tick, u)) && sections_at(
                final(out)@,
                HEADER_SIZE as int,
                secs,
            ),
            Err(e) => r == Err::<usize, CodecError>(e),
        },
{
    encode_delta_snapshot_with_scratch_mode(
        schema,
        tick,
        baseline_tick,
        baseline,
        current,
        limits,
        scratch,
        out,
        EncodeUpdateMode::Sparse,
    )
}

/// Sections are read the same from a copy of the bytes they lie in.
proof fn lemma_sections_at_shift(a: Seq<u8>, o1: int, b: Seq<u8>, o2: int, secs: Seq<(SectionTag, Seq<bool>)>)
    requires
        0 <= o1,
        0 <= o2,
        o1 + sections_len(secs) <= a.len(),
        o2 + sections_len(secs) <= b.len(),
        a.subrange(o1, o1 + sections_len(secs)) == b.subrange(o2, o2 + sections_len(secs)),
        sections_at(a, o1, secs),
    ensures
        sections_at(b, o2, secs),
    decreases secs.len(),
{
    if secs.len() > 0 {
        let (tag, w) = secs[0];
        let n = w.len() / 8;
        let vl = varu32_bytes(n as u32);
        let t = section_total(n);
        let l = sections_len(secs);
        assert(a[o1] == a.subrange(o1, o1 + l)[0]);
        assert(b[o2] == b.subrange(o2, o2 + l)[0]);
        assert(a.subrange(o1 + 1, o1 + 1 + vl.len()) =~= b.subrange(o2 + 1, o2 + 1 + vl.len())) by {
            assert forall|j: int| 0 <= j < vl.len() implies #[trigger] a.subrange(o1 + 1, o1 + 1 + vl.len())[j]
                == b.subrange(o2 + 1, o2 + 1 + vl.len())[j] by {
                assert(a[o1 + 1 + j] == a.subrange(o1, o1 + l)[1 + j]);
                assert(b[o2 + 1 + j] == b.subrange(o2, o2 + l)[1 + j]);
            }
        }
        assert(a.subrange(o1 + 1 + vl.len(), o1 + 1 + vl.len() + n) =~= b.subrange(o2 + 1 + vl.len(), o2 + 1 + vl.len() + n)) by {
            assert forall|j: int| 0 <= j < n implies #[trigger] a.subrange(o1 + 1 + vl.len(), o1 + 1 + vl.len() + n)[j]
                == b.subrange(o2 + 1 + vl.len(), o2 + 1 + vl.len() + n)[j] by {
                assert(a[o1 + 1 + vl.len() + j] == a.subrange(o1, o1 + l)[1 + vl.len() + j]);
                assert(b[o2 + 1 + vl.len() + j] == b.subrange(o2, o2 + l)[1 + vl.len() + j]);
            }
        }
        let rest = secs.drop_first();
        let lr = sections_len(rest);
        assert(a.subrange(o1 + t, o1 + t + lr) =~= b.subrange(o2 + t, o2 + t + lr)) by {
            assert forall|j: int| 0 <= j < lr implies #[trigger] a.subrange(o1 + t, o1 + t + lr)[j]
                == b.subrange(o2 + t, o2 + t + lr)[j] by {
                assert(a[o1 + t + j] == a.subrange(o1, o1 + l)[t + j]);
                assert(b[o2 + t + j] == b.subrange(o2, o2 + l)[t + j]);
            }
        }
        lemma_sections_at_shift(a, o1 + t, b, o2 + t, rest);
    }
}

/// What encoding a compact-session delta packet into `out_len` bytes gives,
/// after the packet with tick `last_tick`.
pub open spec fn session_delta_plan(
    comps: Seq<ComponentDef>,
    tick: SnapshotTick,
    baseline_tick: SnapshotTick,
    last_tick: SnapshotTick,
    b: (SnapshotTick, Seq<EntityV>),
    c: (SnapshotTick, Seq<EntityV>),
    limits: CodecLimits,
    out_len: nat,
) -> Result<(nat, Seq<(SectionTag, Seq<bool>)>), CodecError> {
    if out_len < crate::wire::SESSION_MAX_HEADER_SIZE {
        Err(CodecError::OutputTooSmall { needed: crate::wire::SESSION_MAX_HEADER_SIZE, available: out_len as usize })
    } else if tick@ <= last_tick@ {
        Err(CodecError::InvalidEntityOrder { previous: last_tick@, current: tick@ })
    } else if baseline_tick@ > tick@ {
        Err(CodecError::BaselineTickMismatch { expected: baseline_tick@, found: tick@ })
    } else {
        delta_payload(comps, baseline_tick, b, c, limits, (out_len - crate::wire::SESSION_MAX_HEADER_SIZE) as nat, EncodeUpdateMode::Sparse)
    }
}

/// The compact header of a session delta with payload length `u`.
pub open spec fn session_delta_header(tick: SnapshotTick, baseline_tick: SnapshotTick, last_tick: SnapshotTick, u: nat) -> Seq<u8> {
    crate::wire::session_header_bytes(2, (tick@ - last_tick@) as u32, (tick@ - baseline_tick@) as u32, u as u32)
}

/// Encodes a client delta with a compact session header and advances
/// `last_tick` to `tick`.
#[allow(clippy::too_many_arguments)]
pub fn encode_delta_snapshot_for_client_session_with_scratch(
    schema: &Schema,
    tick: SnapshotTick,
    baseline_tick: SnapshotTick,
    baseline: &Snapshot,
    current: &Snapshot,
    limits: &CodecLimits,
    scratch: &mut CodecScratch,
    last_tick: &mut SnapshotTick,
    out: &mut [u8],
) -> (r: CodecResult<usize>)
    ensures
        final(out)@.len() == old(out)@.len(),
        old(out)@.len() < crate::wire::SESSION_MAX_HEADER_SIZE || tick@ <= old(last_tick)@ || baseline_tick@ > tick@
            ==> final(out)@ == old(out)@,
        match session_delta_plan(schema.components@, tick, baseline_tick, *old(last_tick), baseline@, current@, *limits, old(out)@.len() as nat) {
            Ok((u, secs)) => {
                let h = session_delta_header(tick, baseline_tick, *old(last_tick), u);
                &&& r == Ok::<usize, CodecError>((h.len() + u) as usize)
                &&& final(out)@.take(h.len() as int) == h
                &&& sections_at(final(out)@, h.len() as int, secs)
                &&& *final(last_tick) == tick
            },
            Err(e) => r == Err::<usize, CodecError>(e) && *final(last_tick) == *old(last_tick),
        },
{
    let len = out.len();
    let max_header = crate::wire::SESSION_MAX_HEADER_SIZE;
    if len < max_header {
        return Err(CodecError::OutputTooSmall { needed: max_header, available: len });
    }
    if tick.raw() <= last_tick.raw() {
        return Err(CodecError::InvalidEntityOrder { previous: last_tick.raw(), current: tick.raw() });
    }
    if baseline_tick.raw() > tick.raw() {
        return Err(CodecError::BaselineTickMismatch { expected: baseline_tick.raw(), found: tick.raw() });
    }
    let payload_len = encode_delta_payload_with_mode(
        &schema.components,
        baseline_tick,
        baseline,
        current,
        limits,
        scratch,
        out,
        max_header,
        EncodeUpdateMode::Sparse,
    )?;
    let ghost secs = delta_payload(
        schema.components@,
        baseline_tick,
        baseline@,
        current@,
        *limits,
        (len - max_header) as nat,
        EncodeUpdateMode::Sparse,
    )->Ok_0.1;
    let tick_delta = tick.raw() - last_tick.raw();
    let baseline_delta = tick.raw() - baseline_tick.raw();
    let ghost before = out@;
    let header_len = match crate::wire::encode_session_header(
        out,
        crate::wire::SessionFlags::delta_snapshot(),
        tick_delta,
        baseline_delta,
        payload_len as u32,
    ) {
        Ok(n) => n,
        Err(_) => {
            return Err(CodecError::OutputTooSmall { needed: max_header, available: len });
        },
    };
    let ghost hb = crate::wire::session_header_bytes(2, tick_delta, baseline_delta, payload_len as u32);
    proof {
        crate::wire::bytes::lemma_splice_parts(before, 0, hb);
    }
    let ghost mid = out@;
    let mut k: usize = 0;
    while k < payload_len
        invariant
            header_len <= max_header,
            max_header + payload_len <= len,
            out@.len() == len,
            mid.len() == len,
            k <= payload_len,
            out@.take(header_len as int) == hb,
            hb.len() == header_len,
            out@.subrange(header_len as int, header_len + k) == mid.subrange(max_header as int, max_header + k),
            out@.subrange(max_header + k, max_header + payload_len) == mid.subrange(max_header + k, max_header + payload_len),
        decreases payload_len - k,
    {
        let b = out[max_header + k];
        let ghost prev = out@;
        out[header_len + k] = b;
        proof {
            assert(out@.take(header_len as int) =~= prev.take(header_len as int));
            assert(out@.subrange(header_len as int, header_len + k + 1) =~= mid.subrange(max_header as int, max_header + k + 1)) by {
                assert(prev.subrange(max_header + k, max_header + payload_len)[0] == b);
                assert forall|j: int| 0 <= j < k + 1 implies #[trigger] out@.subrange(header_len as int, header_len + k + 1)[j]
                    == mid.subrange(max_header as int, max_header + k + 1)[j] by {
                    if j < k {
                        assert(prev.subrange(header_len as int, header_len + k)[j] == mid.subrange(max_header as int, max_header + k)[j]);
                    }
                }
            }
            assert(out@.subrange(max_header + k + 1, max_header + payload_len) =~= mid.subrange(max_header + k + 1, max_header + payload_len)) by {
                assert forall|j: int| 0 <= j < payload_len - k - 1 implies #[trigger] out@.subrange(max_header + k + 1, max_header + payload_len)[j]
                    == mid.subrange(max_header + k + 1, max_header + payload_len)[j] by {
                    assert(prev.subrange(max_header + k, max_header + payload_len)[j + 1] == mid.subrange(max_header + k, max_header + payload_len)[j + 1]);
                }
            }
        }
        k = k + 1;
    }
    proof {
        assert(before.skip(max_header as int) =~= mid.skip(max_header as int)) by {
            assert forall|j: int| 0 <= j < before.len() - max_header implies #[trigger] before.skip(max_header as int)[j]
                == mid.skip(max_header as int)[j] by {
                assert(mid.skip(hb.len() as int)[max_header - hb.len() + j] == before.skip(hb.len() as int)[max_header - hb.len() + j]);
            }
        }
        lemma_sections_at_keep(before, mid, max_header as int, max_header as int, secs);
        lemma_sections_at_shift(mid, max_header as int, out@, header_len as int, secs);
    }
    *last_tick = tick;
    Ok(header_len + payload_len)
}

/// Encodes a client delta with a compact session header, using fresh
/// scratch buffers.
pub fn encode_delta_snapshot_for_client_session(
    schema: &Schema,
    tick: SnapshotTick,
    baseline_tick: SnapshotTick,
    baseline: &Snapshot,
    current: &Snapshot,
    limits: &CodecLimits,
    last_tick: &mut SnapshotTick,
    out: &mut [u8],
) -> (r: CodecResult<usize>)
    ensures
        final(out)@.len() == old(out)@.len(),
        old(out)@.len() < crate::wire::SESSION_MAX_HEADER_SIZE || tick@ <= old(last_tick)@ || baseline_tick@ > tick@
            ==> final(out)@ == old(out)@,
        match session_delta_plan(schema.components@, tick, baseline_tick, *old(last_tick), baseline@, current@, *limits, old(out)@.len() as nat) {
            Ok((u, secs)) => {
                let h = session_delta_header(tick, baseline_tick, *old(last_tick), u);
                &&& r == Ok::<usize, CodecError>((h.len() + u) as usize)
                &&& final(out)@.take(h.len() as int) == h
                &&& sections_at(final(out)@, h.len() as int, secs)
                &&& *final(last_tick) == tick
            },
            Err(e) => r == Err::<usize, CodecError>(e) && *final(last_tick) == *old(last_tick),
        },
{
    let mut scratch = CodecScratch::new();
    encode_delta_snapshot_for_client_session_with_scratch(
        schema,
        tick,
        baseline_tick,
        baseline,
        current,
        limits,
        &mut scratch,
        last_tick,
        out,
    )
}

/// The compact header a session delta is written with reads back, after
/// `last_tick`, as the delta's own tick and its baseline tick, whatever
/// follows it.
pub proof fn lemma_session_delta_header_ticks(
    tick: SnapshotTick,
    baseline_tick: SnapshotTick,
    last_tick: SnapshotTick,
    u: nat,
    rest: Seq<u8>,
)
    requires
        last_tick@ < tick@,
        0 < baseline_tick@ <= tick@,
        u <= u32::MAX,
    ensures
        crate::wire::spec_decode_session_header(session_delta_header(tick, baseline_tick, last_tick, u) + rest, last_tick@)
            matches Ok(sh) && sh.tick == tick@ && sh.baseline_tick == baseline_tick@ && sh.payload_len == u
            && sh.header_len == session_delta_header(tick, baseline_tick, last_tick, u).len(),
{
    let hb = session_delta_header(tick, baseline_tick, last_tick, u);
    let buf = hb + rest;
    assert(buf.take(hb.len() as int) =~= hb);
    assert(2u8 & 1u8 == 0u8 && 2u8 & 2u8 != 0u8 && 2u8 & 0xFCu8 == 0u8) by (bit_vector);
    crate::wire::lemma_session_header_roundtrip(
        buf,
        2,
        last_tick@,
        (tick@ - last_tick@) as u32,
        (tick@ - baseline_tick@) as u32,
        u as u32,
    );
    crate::bitstream::bits::lemma_varu32_len((tick@ - last_tick@) as u32);
    crate::bitstream::bits::lemma_varu32_len((tick@ - baseline_tick@) as u32);
    crate::bitstream::bits::lemma_varu32_len(u as u32);
    assert(hb == crate::wire::session_header_bytes(2, (tick@ - last_tick@) as u32, (tick@ - baseline_tick@) as u32, u as u32));
    assert(hb.len() <= 16);
}

} // verus!
