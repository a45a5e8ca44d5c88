//! A delta packet applied to its baseline gives the delta's target: the
//! bytes that delta encoding writes decode, section by section, to the
//! delta's destroys, creates and updates, and applying those to the
//! baseline gives the current entities.
use super::apply::{applied, delta_secs, delta_secs_from, SecsState};
use super::delta_dec::{
    dec_delta_create_section, dec_destroy_section, dec_masked_section, dec_sparse_section, UpdEntV,
};
use super::delta_enc::{
    body_tag, delta_body, delta_header, delta_payload, delta_plan, delta_sections, emit, sections_at, sections_len,
    step, update_kind, DeltaBody, EncodeUpdateMode,
};
use super::delta_law::{
    created_from, destroyed_from, entity_updates, lemma_apply_delta_changes, pairs_ok, target_from,
};
use super::delta_wire::{created_at, ids_at, lemma_create_body_rt, lemma_destroy_body_rt, lemma_masked_body_rt};
use super::diff::{diff_counts_spec, entity_walk, has_updates, ids, order_error, updates_from, walk};
use super::error::CodecError;
use super::limits::CodecLimits;
use super::section::{framed, section_at, section_total, SECTION_PREFIX};
use super::snapshot::EntityV;
use super::sparse_wire::{ids_ascending, lemma_sparse_body_rt};
use super::delta_current::{always_changes, distinct_ids, entities_in_schema_order, lemma_target_current};
use super::types::{EntityId, SnapshotTick};
use crate::bitstream::bits::{bits_of, cap_bits, lemma_bits_of_len, lemma_varu32_len, varu32_bytes};
use crate::schema::ComponentDef;
use crate::wire::{
    header_bytes, lemma_header_roundtrip, lemma_sections_roundtrip, section_bytes, sections_bytes, spec_decode_packet,
    tag_raw, Limits, PacketHeader, SectionTag, HEADER_SIZE,
};
use vstd::prelude::*;

verus! {

/// The tags and body bytes of the sections `secs` that `p` holds back to
/// back from `off` on.
pub open spec fn section_items(p: Seq<u8>, off: int, secs: Seq<(SectionTag, Seq<bool>)>) -> Seq<(SectionTag, Seq<u8>)>
    decreases secs.len(),
{
    if secs.len() == 0 {
        Seq::empty()
    } else {
        let n = secs[0].1.len() / 8;
        let s = off + 1 + varu32_bytes(n as u32).len();
        seq![(secs[0].0, p.subrange(s, s + n))] + section_items(p, off + section_total(n), secs.drop_first())
    }
}

/// Sections framed back to back are their items' framing.
proof fn lemma_section_items(p: Seq<u8>, off: int, secs: Seq<(SectionTag, Seq<bool>)>)
    requires
        0 <= off,
        off + sections_len(secs) <= p.len(),
        sections_at(p, off, secs),
        forall|k: int| 0 <= k < secs.len() ==> #[trigger] secs[k].1.len() / 8 <= u32::MAX,
    ensures
        p.subrange(off, off + sections_len(secs)) == sections_bytes(section_items(p, off, secs)),
        section_items(p, off, secs).len() == secs.len(),
        forall|k: int|
            0 <= k < secs.len() ==> (#[trigger] section_items(p, off, secs)[k]).0 == secs[k].0 && bits_of(
                section_items(p, off, secs)[k].1,
            ) == secs[k].1 && section_items(p, off, secs)[k].1.len() == secs[k].1.len() / 8,
    decreases secs.len(),
{
    let items = section_items(p, off, secs);
    if secs.len() > 0 {
        let (tag, w) = secs[0];
        let n = w.len() / 8;
        let vl = varu32_bytes(n as u32);
        lemma_varu32_len(n as u32);
        let s = off + 1 + vl.len();
        let body = p.subrange(s, s + n);
        let t = section_total(n);
        let rest = secs.drop_first();
        assert forall|k: int| 0 <= k < rest.len() implies #[trigger] rest[k].1.len() / 8 <= u32::MAX by {
            assert(rest[k] == secs[k + 1]);
        }
        assert(sections_len(secs) == t + sections_len(rest));
        lemma_section_items(p, off + t, rest);
        let ri = section_items(p, off + t, rest);
        assert(items.drop_first() =~= ri);
        assert(items[0] == (tag, body));
        let sb = section_bytes(tag, body);
        assert(sb =~= seq![tag_raw(tag)] + vl + body);
        let l = sections_len(secs);
        assert(p.subrange(off, off + l) =~= sb + p.subrange(off + t, off + l)) by {
            assert forall|j: int| 0 <= j < l implies #[trigger] p.subrange(off, off + l)[j] == (sb + p.subrange(off + t, off + l))[j] by {
                if j == 0 {
                } else if j < 1 + vl.len() {
                    assert(p.subrange(off + 1, off + 1 + vl.len())[j - 1] == vl[j - 1]);
                } else if j < t {
                    assert(body[j - 1 - vl.len()] == p[off + j]);
                } else {
                }
            }
        }
        assert forall|k: int| 0 <= k < secs.len() implies (#[trigger] items[k]).0 == secs[k].0 && bits_of(items[k].1)
            == secs[k].1 && items[k].1.len() == secs[k].1.len() / 8 by {
            if k > 0 {
                assert(items[k] == ri[k - 1]);
                assert(secs[k] == rest[k - 1]);
            } else {
                lemma_bits_of_len(body);
            }
        }
    } else {
        assert(items =~= Seq::<(SectionTag, Seq<u8>)>::empty());
        assert(p.subrange(off, off) =~= Seq::<u8>::empty());
    }
}

/// A delta packet's bytes decode to its header and section items.
proof fn lemma_delta_packet(out: Seq<u8>, h: PacketHeader, secs: Seq<(SectionTag, Seq<bool>)>, u: nat, wire_limits: Limits)
    requires
        out.take(HEADER_SIZE as int) == header_bytes(h),
        sections_at(out, HEADER_SIZE as int, secs),
        u == sections_len(secs),
        HEADER_SIZE + u <= out.len(),
        HEADER_SIZE + u <= wire_limits.max_packet_bytes,
        u <= u32::MAX,
        h.payload_len == u,
        h.version == crate::wire::VERSION,
        h.flags.0 == 2,
        h.baseline_tick != 0,
        secs.len() <= wire_limits.max_sections,
        forall|k: int| 0 <= k < secs.len() ==> #[trigger] secs[k].1.len() / 8 <= wire_limits.max_section_len && secs[k].1.len()
            / 8 <= u32::MAX,
    ensures
        spec_decode_packet(out.take(HEADER_SIZE + u), wire_limits) == Ok::<
            (PacketHeader, Seq<(SectionTag, Seq<u8>)>),
            crate::wire::DecodeError,
        >((h, section_items(out, HEADER_SIZE as int, secs))),
        section_items(out, HEADER_SIZE as int, secs).len() == secs.len(),
        forall|k: int|
            0 <= k < secs.len() ==> (#[trigger] section_items(out, HEADER_SIZE as int, secs)[k]).0 == secs[k].0 && bits_of(
                section_items(out, HEADER_SIZE as int, secs)[k].1,
            ) == secs[k].1 && section_items(out, HEADER_SIZE as int, secs)[k].1.len() == secs[k].1.len() / 8,
{
    super::full::lemma_header_bytes_len(h);
    let o = HEADER_SIZE as int;
    let items = section_items(out, o, secs);
    assert forall|k: int| 0 <= k < secs.len() implies #[trigger] secs[k].1.len() / 8 <= u32::MAX by {}
    lemma_section_items(out, o, secs);
    let payload = sections_bytes(items);
    let buf = out.take(HEADER_SIZE + u);
    assert(buf =~= header_bytes(h) + payload) by {
        assert forall|j: int| 0 <= j < buf.len() implies #[trigger] buf[j] == (header_bytes(h) + payload)[j] by {
            if j < o {
                assert(out.take(o)[j] == out[j]);
            } else {
                assert(out.subrange(o, o + u)[j - o] == out[j]);
            }
        }
    }
    assert(valid_v2_delta()) by {
        reveal(valid_v2_delta);
        assert(crate::wire::valid_v2(2u16)) by (bit_vector);
        assert(crate::wire::has_delta(2u16)) by (bit_vector);
        assert(!crate::wire::has_session(2u16)) by (bit_vector);
        assert(!crate::wire::has_full(2u16)) by (bit_vector);
    }
    reveal(valid_v2_delta);
    lemma_header_roundtrip(h, payload, wire_limits);
    assert(buf.skip(o).skip(0) =~= payload);
    assert(crate::wire::bodies_fit(items, wire_limits)) by {
        assert forall|i: int| 0 <= i < items.len() implies #[trigger] items[i].1.len() <= wire_limits.max_section_len
            && items[i].1.len() <= u32::MAX by {
            assert(items[i].1.len() == secs[i].1.len() / 8);
        }
    }
    lemma_sections_roundtrip(buf.skip(o), 0, 0, items, wire_limits);
}

/// The delta flag bits pass the version-2 flag checks.
#[verifier::opaque]
spec fn valid_v2_delta() -> bool {
    &&& crate::wire::valid_v2(2u16)
    &&& crate::wire::has_delta(2u16)
    &&& !crate::wire::has_session(2u16)
    &&& !crate::wire::has_full(2u16)
}

/// `sec` is a body of kind `k` as delta encoding writes it, framed within
/// the codec's section limit.
pub open spec fn sec_of(
    k: DeltaBody,
    sec: (SectionTag, Seq<bool>),
    comps: Seq<ComponentDef>,
    b: Seq<EntityV>,
    c: Seq<EntityV>,
    counts: (nat, nat, nat),
    limits: CodecLimits,
) -> bool {
    &&& sec.0 == body_tag(k)
    &&& exists|cap: nat| cap <= usize::MAX && #[trigger] delta_body(k, cap, comps, b, c, counts, limits) == Ok::<Seq<bool>, CodecError>(sec.1)
    &&& sec.1.len() / 8 <= limits.max_section_bytes
    &&& sec.1.len() / 8 <= u32::MAX
}

proof fn lemma_step(
    prev: Result<(nat, Seq<(SectionTag, Seq<bool>)>), CodecError>,
    doit: bool,
    k: DeltaBody,
    comps: Seq<ComponentDef>,
    b: Seq<EntityV>,
    c: Seq<EntityV>,
    counts: (nat, nat, nat),
    limits: CodecLimits,
    room: nat,
)
    requires
        step(prev, doit, k, comps, b, c, counts, limits, room) is Ok,
    ensures
        prev is Ok,
        ({
            let (u1, s1) = prev->Ok_0;
            let (u2, s2) = step(prev, doit, k, comps, b, c, counts, limits, room)->Ok_0;
            if doit {
                &&& s2.len() == s1.len() + 1
                &&& s2 == s1.push(s2.last())
                &&& sec_of(k, s2.last(), comps, b, c, counts, limits)
                &&& u2 == u1 + section_total(s2.last().1.len() / 8)
                &&& u1 <= room ==> u2 <= room
            } else {
                s2 == s1 && u2 == u1
            }
        }),
{
    reveal(emit);
    if doit {
        let (u1, s1) = prev->Ok_0;
        let avail = (room - u1) as nat;
        let cap = cap_bits((avail - SECTION_PREFIX) as nat);
        let w = emit(k, comps, b, c, counts, limits, room, u1)->Ok_0.1;
        assert(delta_body(k, cap, comps, b, c, counts, limits) == Ok::<Seq<bool>, CodecError>(w));
        let s2 = s1.push((body_tag(k), w));
        assert(s2.last() == (body_tag(k), w));
    }
}

/// The sections of a delta: a destroy section when entities go, a create
/// section when entities come, then an update section when entities change,
/// taking the bytes their framing takes.
proof fn lemma_sections_shape(
    comps: Seq<ComponentDef>,
    b: Seq<EntityV>,
    c: Seq<EntityV>,
    counts: (nat, nat, nat),
    limits: CodecLimits,
    room: nat,
    mode: EncodeUpdateMode,
)
    requires
        delta_sections(comps, b, c, counts, limits, room, mode) is Ok,
    ensures
        ({
            let (u, secs) = delta_sections(comps, b, c, counts, limits, room, mode)->Ok_0;
            let nd: nat = if counts.2 > 0 { 1 } else { 0 };
            let nc: nat = if counts.0 > 0 { 1 } else { 0 };
            let nu: nat = if counts.1 > 0 { 1 } else { 0 };
            &&& secs.len() == nd + nc + nu
            &&& u == sections_len(secs)
            &&& u <= room
            &&& counts.2 > 0 ==> sec_of(DeltaBody::Destroy, secs[0], comps, b, c, counts, limits)
            &&& counts.0 > 0 ==> sec_of(DeltaBody::Create, secs[nd as int], comps, b, c, counts, limits)
            &&& counts.1 > 0 ==> update_kind(mode, comps, b, c, limits) is Ok && sec_of(
                update_kind(mode, comps, b, c, limits)->Ok_0,
                secs[(nd + nc) as int],
                comps,
                b,
                c,
                counts,
                limits,
            )
        }),
{
    reveal(delta_sections);
    let s0 = Ok::<(nat, Seq<(SectionTag, Seq<bool>)>), CodecError>((0nat, Seq::<(SectionTag, Seq<bool>)>::empty()));
    let s1 = step(s0, counts.2 > 0, DeltaBody::Destroy, comps, b, c, counts, limits, room);
    let s2 = step(s1, counts.0 > 0, DeltaBody::Create, comps, b, c, counts, limits, room);
    lemma_step(s1, counts.0 > 0, DeltaBody::Create, comps, b, c, counts, limits, room);
    lemma_step(s0, counts.2 > 0, DeltaBody::Destroy, comps, b, c, counts, limits, room);
    let (u1, q1) = s1->Ok_0;
    let (u2, q2) = s2->Ok_0;
    assert(sections_len(Seq::<(SectionTag, Seq<bool>)>::empty()) == 0);
    if counts.2 > 0 {
        super::delta_enc::lemma_sections_len_push(Seq::<(SectionTag, Seq<bool>)>::empty(), q1.last());
        assert(q1[0] == q1.last());
    }
    assert(u1 == sections_len(q1));
    if counts.0 > 0 {
        super::delta_enc::lemma_sections_len_push(q1, q2.last());
        assert(q2[q1.len() as int] == q2.last());
        if counts.2 > 0 {
            assert(q2[0] == q1[0]);
        }
    }
    assert(u2 == sections_len(q2));
    if counts.1 > 0 {
        let kind = update_kind(mode, comps, b, c, limits)->Ok_0;
        let s3 = step(s2, true, kind, comps, b, c, counts, limits, room);
        lemma_step(s2, true, kind, comps, b, c, counts, limits, room);
        let (u3, q3) = s3->Ok_0;
        super::delta_enc::lemma_sections_len_push(q2, q3.last());
        assert(q3[q2.len() as int] == q3.last());
        assert(forall|t: int| 0 <= t < q2.len() ==> q3[t] == q2[t]);
    }
}

/// What a delta section body of kind `k` decodes to: the destroyed ids, the
/// created entities or the entity updates of the delta.
pub open spec fn body_decodes(
    k: DeltaBody,
    d: Seq<u8>,
    comps: Seq<ComponentDef>,
    b: Seq<EntityV>,
    c: Seq<EntityV>,
    limits: CodecLimits,
) -> bool {
    let w = entity_walk(b, c);
    let eu = entity_updates(comps, b, c, w.2, limits);
    match k {
        DeltaBody::Destroy => dec_destroy_section(d, limits) == Ok::<Seq<EntityId>, CodecError>(ids_at(b, w.0)),
        DeltaBody::Create => dec_delta_create_section(d, comps, limits) == Ok::<Seq<EntityV>, CodecError>(created_at(comps, c, w.1)),
        DeltaBody::Masked => dec_masked_section(d, comps, limits) == Ok::<Seq<UpdEntV>, CodecError>(eu) && pairs_ok(
            comps,
            b,
            c,
            w.2,
            limits,
        ),
        DeltaBody::SparseVarint => dec_sparse_section(d, comps, limits, false) == Ok::<Seq<UpdEntV>, CodecError>(eu) && pairs_ok(
            comps,
            b,
            c,
            w.2,
            limits,
        ),
        DeltaBody::SparsePacked => dec_sparse_section(d, comps, limits, true) == Ok::<Seq<UpdEntV>, CodecError>(eu) && pairs_ok(
            comps,
            b,
            c,
            w.2,
            limits,
        ),
    }
}

/// A sparse update body is read back as written when the schema lists its
/// components in ascending id order and field counts fit the entry header.
pub open spec fn sparse_readable(comps: Seq<ComponentDef>, limits: CodecLimits) -> bool {
    ids_ascending(comps) && limits.max_fields_per_component <= u32::MAX
}

/// Whether a body kind is a sparse update.
pub open spec fn is_sparse(k: DeltaBody) -> bool {
    k == DeltaBody::SparseVarint || k == DeltaBody::SparsePacked
}

/// Whether a delta with these counts carries a sparse update section.
pub open spec fn sparse_update(
    counts: (nat, nat, nat),
    mode: EncodeUpdateMode,
    comps: Seq<ComponentDef>,
    b: Seq<EntityV>,
    c: Seq<EntityV>,
    limits: CodecLimits,
) -> bool {
    counts.1 > 0 && match update_kind(mode, comps, b, c, limits) {
        Ok(k) => is_sparse(k),
        Err(_) => false,
    }
}

proof fn lemma_body_decodes(
    k: DeltaBody,
    sec: (SectionTag, Seq<bool>),
    d: Seq<u8>,
    comps: Seq<ComponentDef>,
    b: Seq<EntityV>,
    c: Seq<EntityV>,
    counts: (nat, nat, nat),
    limits: CodecLimits,
)
    requires
        sec_of(k, sec, comps, b, c, counts, limits),
        bits_of(d) == sec.1,
        super::apply::ids_sorted(b),
        super::apply::ids_sorted(c),
        updates_from(comps, b, c, entity_walk(b, c).2, limits, 0) == Ok::<nat, CodecError>(counts.1),
        is_sparse(k) ==> sparse_readable(comps, limits),
    ensures
        body_decodes(k, d, comps, b, c, limits),
{
    reveal(delta_body);
    let cap = choose|cap: nat| cap <= usize::MAX && #[trigger] delta_body(k, cap, comps, b, c, counts, limits) == Ok::<Seq<bool>, CodecError>(sec.1);
    let w = entity_walk(b, c);
    super::delta_law::lemma_walk_facts(ids(b), ids(c), 0, 0);
    lemma_bits_of_len(d);
    assert(d.len() == sec.1.len() / 8);
    match k {
        DeltaBody::Destroy => {
            assert forall|t: int, u: int| 0 <= t < u < w.0.len() implies b[w.0[t] as int].0@ < b[w.0[u] as int].0@ by {
                assert(w.0[t] < w.0[u]);
            }
            lemma_destroy_body_rt(d, cap, b, w.0, limits, sec.1);
        },
        DeltaBody::Create => {
            assert forall|t: int, u: int| 0 <= t < u < w.1.len() implies c[w.1[t] as int].0@ < c[w.1[u] as int].0@ by {
                assert(w.1[t] < w.1[u]);
            }
            lemma_create_body_rt(d, cap, comps, c, w.1, limits, sec.1);
        },
        _ => {
            assert forall|t: int, u: int| 0 <= t < u < w.2.len() implies c[w.2[t].1 as int].0@ < c[w.2[u].1 as int].0@ by {
                assert(w.2[t].1 < w.2[u].1);
            }
            match k {
                DeltaBody::Masked => {
                    lemma_masked_body_rt(d, cap, comps, b, c, w.2, counts.1, limits, sec.1);
                },
                DeltaBody::SparseVarint => {
                    lemma_sparse_body_rt(d, cap, comps, b, c, w.2, counts.1, limits, false, sec.1);
                },
                _ => {
                    lemma_sparse_body_rt(d, cap, comps, b, c, w.2, counts.1, limits, true, sec.1);
                },
            }
        },
    }
}

proof fn lemma_no_updates(
    comps: Seq<ComponentDef>,
    b: Seq<EntityV>,
    c: Seq<EntityV>,
    pairs: Seq<(nat, nat)>,
    limits: CodecLimits,
    k: nat,
)
    requires
        k <= pairs.len(),
        updates_from(comps, b, c, pairs, limits, k) == Ok::<nat, CodecError>(0),
    ensures
        forall|t: int| k <= t < pairs.len() ==> has_updates(comps, b[(#[trigger] pairs[t]).0 as int], c[pairs[t].1 as int], limits)
            == Ok::<bool, CodecError>(false),
    decreases pairs.len() - k,
{
    if k < pairs.len() {
        lemma_no_updates(comps, b, c, pairs, limits, k + 1);
    }
}

/// The decoding state after an update section of kind `k`.
pub open spec fn upd_state(k: DeltaBody, st: SecsState, eu: Seq<UpdEntV>) -> SecsState {
    if k == DeltaBody::Masked {
        (st.0, st.1, Some(eu), None)
    } else {
        (st.0, st.1, None, Some(eu))
    }
}

/// Decoding a delta section at `k` of the packet's items, read back as the
/// encoder wrote it.
#[verifier::rlimit(20)]
proof fn lemma_secs_step(
    comps: Seq<ComponentDef>,
    items: Seq<(SectionTag, Seq<u8>)>,
    limits: CodecLimits,
    k: nat,
    st: SecsState,
    kind: DeltaBody,
    sec: (SectionTag, Seq<bool>),
    b: Seq<EntityV>,
    c: Seq<EntityV>,
    counts: (nat, nat, nat),
)
    requires
        k < items.len(),
        items[k as int].0 == sec.0,
        bits_of(items[k as int].1) == sec.1,
        sec_of(kind, sec, comps, b, c, counts, limits),
        super::apply::ids_sorted(b),
        super::apply::ids_sorted(c),
        updates_from(comps, b, c, entity_walk(b, c).2, limits, 0) == Ok::<nat, CodecError>(counts.1),
        is_sparse(kind) ==> sparse_readable(comps, limits),
        kind == DeltaBody::Destroy ==> st.0 is None,
        kind == DeltaBody::Create ==> st.1 is None,
        kind != DeltaBody::Destroy && kind != DeltaBody::Create ==> st.2 is None && st.3 is None,
    ensures
        delta_secs_from(comps, items, limits, k, st) == delta_secs_from(
            comps,
            items,
            limits,
            k + 1,
            match kind {
                DeltaBody::Destroy => (Some(ids_at(b, entity_walk(b, c).0)), st.1, st.2, st.3),
                DeltaBody::Create => (st.0, Some(created_at(comps, c, entity_walk(b, c).1)), st.2, st.3),
                _ => upd_state(kind, st, entity_updates(comps, b, c, entity_walk(b, c).2, limits)),
            },
        ),
        kind != DeltaBody::Destroy && kind != DeltaBody::Create ==> pairs_ok(comps, b, c, entity_walk(b, c).2, limits),
{
    lemma_body_decodes(kind, sec, items[k as int].1, comps, b, c, counts, limits);
}

/// The sections of an encoded delta decode to its destroyed ids, created
/// entities and entity updates.
#[verifier::rlimit(40)]
proof fn lemma_delta_secs(
    comps: Seq<ComponentDef>,
    b: Seq<EntityV>,
    c: Seq<EntityV>,
    counts: (nat, nat, nat),
    limits: CodecLimits,
    room: nat,
    mode: EncodeUpdateMode,
    items: Seq<(SectionTag, Seq<u8>)>,
)
    requires
        delta_sections(comps, b, c, counts, limits, room, mode) is Ok,
        items.len() == delta_sections(comps, b, c, counts, limits, room, mode)->Ok_0.1.len(),
        forall|k: int|
            0 <= k < items.len() ==> (#[trigger] items[k]).0 == delta_sections(comps, b, c, counts, limits, room, mode)->Ok_0.1[k].0
                && bits_of(items[k].1) == delta_sections(comps, b, c, counts, limits, room, mode)->Ok_0.1[k].1,
        super::apply::ids_sorted(b),
        super::apply::ids_sorted(c),
        diff_counts_spec(comps, b, c, limits) == Ok::<(nat, nat, nat), CodecError>(counts),
        sparse_update(counts, mode, comps, b, c, limits) ==> sparse_readable(comps, limits),
    ensures
        delta_secs(comps, items, limits) == Ok::<(Seq<EntityId>, Seq<EntityV>, Seq<UpdEntV>), CodecError>(
            (ids_at(b, entity_walk(b, c).0), created_at(comps, c, entity_walk(b, c).1), entity_updates(comps, b, c, entity_walk(b, c).2, limits)),
        ),
        pairs_ok(comps, b, c, entity_walk(b, c).2, limits),
{
    let secs = delta_sections(comps, b, c, counts, limits, room, mode)->Ok_0.1;
    lemma_sections_shape(comps, b, c, counts, limits, room, mode);
    let w = entity_walk(b, c);
    let nd: nat = if counts.2 > 0 { 1 } else { 0 };
    let nc: nat = if counts.0 > 0 { 1 } else { 0 };
    let nu: nat = if counts.1 > 0 { 1 } else { 0 };
    let ds = ids_at(b, w.0);
    let cs = created_at(comps, c, w.1);
    let eu = entity_updates(comps, b, c, w.2, limits);
    let st0: SecsState = (None, None, None, None);
    let st1: SecsState = if nd == 1 { (Some(ds), None, None, None) } else { st0 };
    let st2: SecsState = if nc == 1 { (st1.0, Some(cs), None, None) } else { st1 };
    reveal(diff_counts_spec);
    assert(updates_from(comps, b, c, w.2, limits, 0) == Ok::<nat, CodecError>(counts.1));
    if nd == 1 {
        lemma_secs_step(comps, items, limits, 0, st0, DeltaBody::Destroy, secs[0], b, c, counts);
    } else {
        assert(ds =~= Seq::<EntityId>::empty());
    }
    if nc == 1 {
        lemma_secs_step(comps, items, limits, nd, st1, DeltaBody::Create, secs[nd as int], b, c, counts);
    } else {
        assert(cs =~= Seq::<EntityV>::empty());
    }
    let at = nd + nc;
    if nu == 1 {
        let kind = update_kind(mode, comps, b, c, limits)->Ok_0;
        lemma_secs_step(comps, items, limits, at, st2, kind, secs[at as int], b, c, counts);
        let st3 = upd_state(kind, st2, eu);
        assert(delta_secs_from(comps, items, limits, at + 1, st3) == Ok::<SecsState, CodecError>(st3));
    } else {
        assert(delta_secs_from(comps, items, limits, at, st2) == Ok::<SecsState, CodecError>(st2));
        lemma_no_updates(comps, b, c, w.2, limits, 0);
        super::sparse_wire::lemma_updates_len(comps, b, c, w.2, limits, 0, 0);
        assert(w.2.subrange(0, w.2.len() as int) =~= w.2);
        assert(eu =~= Seq::<UpdEntV>::empty());
    }
}

/// Whether encoding this delta writes a sparse update section.
pub open spec fn delta_uses_sparse(
    comps: Seq<ComponentDef>,
    b: Seq<EntityV>,
    c: Seq<EntityV>,
    limits: CodecLimits,
    mode: EncodeUpdateMode,
) -> bool {
    match diff_counts_spec(comps, b, c, limits) {
        Ok(counts) => sparse_update(counts, mode, comps, b, c, limits),
        Err(_) => false,
    }
}

proof fn lemma_delta_roundtrip_facts(
    comps: Seq<ComponentDef>,
    tick: SnapshotTick,
    baseline_tick: SnapshotTick,
    b: (SnapshotTick, Seq<EntityV>),
    c: (SnapshotTick, Seq<EntityV>),
    limits: CodecLimits,
    wire_limits: Limits,
    mode: EncodeUpdateMode,
    out: Seq<u8>,
)
    requires
        delta_plan(comps, baseline_tick, b, c, limits, out.len(), mode) is Ok,
        ({
            let (u, secs) = delta_plan(comps, baseline_tick, b, c, limits, out.len(), mode)->Ok_0;
            &&& out.take(HEADER_SIZE as int) == header_bytes(delta_header(comps, tick, baseline_tick, u))
            &&& sections_at(out, HEADER_SIZE as int, secs)
            &&& HEADER_SIZE + u <= wire_limits.max_packet_bytes
            &&& u <= u32::MAX
            &&& secs.len() <= wire_limits.max_sections
            &&& forall|k: int| 0 <= k < secs.len() ==> #[trigger] secs[k].1.len() / 8 <= wire_limits.max_section_len
        }),
        baseline_tick@ != 0,
        c.1.len() <= limits.max_total_entities_after_apply,
        delta_uses_sparse(comps, b.1, c.1, limits, mode) ==> sparse_readable(comps, limits),
    ensures
        ({
            let u = delta_plan(comps, baseline_tick, b, c, limits, out.len(), mode)->Ok_0.0;
            match spec_decode_packet(out.take(HEADER_SIZE + u), wire_limits) {
                Ok((h, items)) => applied(comps, b, h, items, limits) == Ok::<(SnapshotTick, Seq<EntityV>), CodecError>(
                    (tick, target_from(comps, b.1, c.1, limits, 0, 0)),
                ),
                Err(_) => false,
            }
        }),
        pairs_ok(comps, b.1, c.1, walk(ids(b.1), ids(c.1), 0, 0).2, limits),
{
    broadcast use super::types::lemma_tick_of_view;
    let (u, secs) = delta_plan(comps, baseline_tick, b, c, limits, out.len(), mode)->Ok_0;
    let room = (out.len() - HEADER_SIZE) as nat;
    let counts = diff_counts_spec(comps, b.1, c.1, limits)->Ok_0;
    assert(delta_sections(comps, b.1, c.1, counts, limits, room, mode) == Ok::<(nat, Seq<(SectionTag, Seq<bool>)>), CodecError>((u, secs)));
    lemma_sections_shape(comps, b.1, c.1, counts, limits, room, mode);
    let h = delta_header(comps, tick, baseline_tick, u);
    assert forall|k: int| 0 <= k < secs.len() implies #[trigger] secs[k].1.len() / 8 <= wire_limits.max_section_len && secs[k].1.len() / 8
        <= u32::MAX by {
        if counts.2 > 0 && k == 0 {
        } else if counts.0 > 0 && k == (if counts.2 > 0 { 1int } else { 0int }) {
        } else {
        }
    }
    lemma_delta_packet(out, h, secs, u, wire_limits);
    let items = section_items(out, HEADER_SIZE as int, secs);
    super::apply::lemma_order_sorted(b.1);
    super::apply::lemma_order_sorted(c.1);
    lemma_delta_secs(comps, b.1, c.1, counts, limits, room, mode, items);
    let w = entity_walk(b.1, c.1);
    assert(ids_at(b.1, w.0) =~= destroyed_from(b.1, c.1, 0, 0));
    assert(created_at(comps, c.1, w.1) =~= created_from(comps, b.1, c.1, 0, 0));
    lemma_apply_delta_changes(comps, b.1, c.1, limits);
    assert(valid_v2_delta()) by {
        reveal(valid_v2_delta);
        assert(crate::wire::valid_v2(2u16)) by (bit_vector);
        assert(crate::wire::has_delta(2u16)) by (bit_vector);
        assert(!crate::wire::has_session(2u16)) by (bit_vector);
        assert(!crate::wire::has_full(2u16)) by (bit_vector);
    }
    reveal(valid_v2_delta);
}

/// Applying a delta packet to its baseline gives the delta's target.
///
/// Decoding the first `HEADER_SIZE + u` bytes of a buffer that delta
/// encoding filled (`u` being the payload length it reported), then
/// applying them to the baseline, gives the current tick and the current
/// entities in id order: created ones with their components in schema
/// order, kept ones with their baseline components where every changed
/// field holds its current value. This holds within the decoder's wire
/// limits, for a non-zero baseline tick (the decoder refuses a delta
/// against tick zero), when the current snapshot fits the apply limit on
/// entities, and, for a sparse update section, when the schema lists its
/// components in ascending id order (the decoder refuses entries out of
/// that order) and field counts fit the entry header.
pub proof fn lemma_delta_roundtrip(
    comps: Seq<ComponentDef>,
    tick: SnapshotTick,
    baseline_tick: SnapshotTick,
    b: (SnapshotTick, Seq<EntityV>),
    c: (SnapshotTick, Seq<EntityV>),
    limits: CodecLimits,
    wire_limits: Limits,
    mode: EncodeUpdateMode,
    out: Seq<u8>,
)
    requires
        delta_plan(comps, baseline_tick, b, c, limits, out.len(), mode) is Ok,
        ({
            let (u, secs) = delta_plan(comps, baseline_tick, b, c, limits, out.len(), mode)->Ok_0;
            &&& out.take(HEADER_SIZE as int) == header_bytes(delta_header(comps, tick, baseline_tick, u))
            &&& sections_at(out, HEADER_SIZE as int, secs)
            &&& HEADER_SIZE + u <= wire_limits.max_packet_bytes
            &&& u <= u32::MAX
            &&& secs.len() <= wire_limits.max_sections
            &&& forall|k: int| 0 <= k < secs.len() ==> #[trigger] secs[k].1.len() / 8 <= wire_limits.max_section_len
        }),
        baseline_tick@ != 0,
        c.1.len() <= limits.max_total_entities_after_apply,
        delta_uses_sparse(comps, b.1, c.1, limits, mode) ==> sparse_readable(comps, limits),
    ensures
        ({
            let u = delta_plan(comps, baseline_tick, b, c, limits, out.len(), mode)->Ok_0.0;
            match spec_decode_packet(out.take(HEADER_SIZE + u), wire_limits) {
                Ok((h, items)) => applied(comps, b, h, items, limits) == Ok::<(SnapshotTick, Seq<EntityV>), CodecError>(
                    (tick, target_from(comps, b.1, c.1, limits, 0, 0)),
                ),
                Err(_) => false,
            }
        }),
{
    lemma_delta_roundtrip_facts(comps, tick, baseline_tick, b, c, limits, wire_limits, mode, out);
}

/// Applying a delta packet to its baseline gives the current snapshot
/// itself when every field of the schema counts any change, no two schema
/// components share an id, and both snapshots list each entity's components
/// in schema order; under the same limits and conditions as
/// `lemma_delta_roundtrip`.
pub proof fn lemma_delta_apply_is_current(
    comps: Seq<ComponentDef>,
    tick: SnapshotTick,
    baseline_tick: SnapshotTick,
    b: (SnapshotTick, Seq<EntityV>),
    c: (SnapshotTick, Seq<EntityV>),
    limits: CodecLimits,
    wire_limits: Limits,
    mode: EncodeUpdateMode,
    out: Seq<u8>,
)
    requires
        delta_plan(comps, baseline_tick, b, c, limits, out.len(), mode) is Ok,
        ({
            let (u, secs) = delta_plan(comps, baseline_tick, b, c, limits, out.len(), mode)->Ok_0;
            &&& out.take(HEADER_SIZE as int) == header_bytes(delta_header(comps, tick, baseline_tick, u))
            &&& sections_at(out, HEADER_SIZE as int, secs)
            &&& HEADER_SIZE + u <= wire_limits.max_packet_bytes
            &&& u <= u32::MAX
            &&& secs.len() <= wire_limits.max_sections
            &&& forall|k: int| 0 <= k < secs.len() ==> #[trigger] secs[k].1.len() / 8 <= wire_limits.max_section_len
        }),
        baseline_tick@ != 0,
        c.1.len() <= limits.max_total_entities_after_apply,
        delta_uses_sparse(comps, b.1, c.1, limits, mode) ==> sparse_readable(comps, limits),
        distinct_ids(comps),
        always_changes(comps),
        entities_in_schema_order(comps, b.1),
        entities_in_schema_order(comps, c.1),
    ensures
        ({
            let u = delta_plan(comps, baseline_tick, b, c, limits, out.len(), mode)->Ok_0.0;
            match spec_decode_packet(out.take(HEADER_SIZE + u), wire_limits) {
                Ok((h, items)) => applied(comps, b, h, items, limits) == Ok::<(SnapshotTick, Seq<EntityV>), CodecError>(
                    (tick, c.1),
                ),
                Err(_) => false,
            }
        }),
{
    lemma_delta_roundtrip_facts(comps, tick, baseline_tick, b, c, limits, wire_limits, mode, out);
    lemma_target_current(comps, b.1, c.1, limits, 0, 0);
    assert(c.1.subrange(0, c.1.len() as int) =~= c.1);
}

} // verus!
