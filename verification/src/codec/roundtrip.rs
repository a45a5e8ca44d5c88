//! Reading back what was written: each decoding step, run on a buffer whose
//! bits start with what the matching encoding step wrote, gives back the
//! encoded value and ends where the encoding ended.
use super::error::{CodecError, LimitKind, MaskKind};
use super::full::{
    dec_create_section, enc_create_body, full_from_packet, full_header, full_plan, dec_comps, dec_entities, dec_entity_comps, enc_entities, enc_entity, enc_full_fields, enc_present,
};
use super::limits::CodecLimits;
use super::snapshot::{
    dec_full_component, dec_mask, dec_values, enc_mask, enc_ones, enc_values, find_comp, ComponentV,
    EntityV,
};
use super::section::{section_at, section_total, SECTION_PREFIX};
use super::types::SnapshotTick;
use crate::wire::{
    PacketHeader, has_full, header_bytes, lemma_header_roundtrip, lemma_sections_roundtrip, section_bytes, sections_bytes,
    spec_decode_packet, valid_v2, Limits, SectionTag, HEADER_SIZE,
};
use super::model::{
    dec_field, enc_field, fp_bits, fp_offset, lift, r_align, r_bit, r_bits, r_le, r_varu32, rcap,
    room, sint_pattern, sint_value, w_align, w_bit, w_bits, w_le, w_varu32, FieldValue,
};
use crate::bitstream::bits::{
    bits_of, bits_value, byte_bit, cap_bits, fits_bits, le_bytes, le_value, lemma_bits_of_injective,
    lemma_bits_of_len, lemma_le_bytes_len, lemma_le_roundtrip, lemma_u64_bits_value,
    lemma_varu32_len, lemma_varu32_parse_roundtrip, lemma_zigzag_roundtrip, pad_len, padded, u64_bits,
    unzigzag, varu32_bytes, varu32_parse, zeros, zigzag,
};
use crate::bitstream::BitError;
use crate::schema::{ComponentDef, ComponentId, FieldCodec, FieldDef};
use vstd::arithmetic::power2::pow2;
use vstd::prelude::*;

verus! {

/// `w` is what the stream `s` starts with.
pub open spec fn written_in(w: Seq<bool>, s: Seq<bool>) -> bool {
    w.len() <= s.len() && forall|i: int| 0 <= i < w.len() ==> #[trigger] s[i] == w[i]
}

/// The bytes `a..a + s.len()` of `d` are `s` when their bits are.
pub proof fn lemma_bytes_from_bits(d: Seq<u8>, a: nat, s: Seq<u8>)
    requires
        (a + s.len()) * 8 <= bits_of(d).len(),
        forall|i: int| 0 <= i < s.len() * 8 ==> #[trigger] bits_of(d)[a * 8 + i] == bits_of(s)[i],
    ensures
        d.subrange(a as int, (a + s.len()) as int) == s,
{
    lemma_bits_of_len(d);
    let sub = d.subrange(a as int, (a + s.len()) as int);
    assert forall|i: int| 0 <= i < sub.len() * 8 implies bits_of(sub)[i] == bits_of(s)[i] by {
        assert(bits_of(d)[a * 8 + i] == bits_of(s)[i]);
        assert((a * 8 + i) / 8 == a + i / 8);
        assert((a * 8 + i) % 8 == i % 8);
    }
    assert(bits_of(sub) =~= bits_of(s));
    lemma_bits_of_injective(sub, s);
}

/// Reading a bit that was written.
pub proof fn lemma_bit_rt(d: Seq<u8>, w: Seq<bool>, cap: nat, b: bool, w2: Seq<bool>)
    requires
        w_bit(w, cap, b) == Ok::<Seq<bool>, BitError>(w2),
        written_in(w2, bits_of(d)),
        w2.len() <= rcap(d),
    ensures
        r_bit(d, w.len()) == Ok::<(bool, nat), BitError>((b, w2.len())),
        w2 == w.push(b),
{
    assert(bits_of(d)[w.len() as int] == w2[w.len() as int]);
}

/// Reading `n` bits that were written.
pub proof fn lemma_bits_rt(d: Seq<u8>, w: Seq<bool>, cap: nat, x: u64, n: u8, w2: Seq<bool>)
    requires
        w_bits(w, cap, x, n) == Ok::<Seq<bool>, BitError>(w2),
        written_in(w2, bits_of(d)),
        w2.len() <= rcap(d),
        n == 0 ==> x == 0,
    ensures
        r_bits(d, w.len(), n) == Ok::<(u64, nat), BitError>((x, w2.len())),
        w2.len() == w.len() + n,
        written_in(w, w2),
{
    let p = w.len();
    if n == 0 {
        assert(bits_of(d).subrange(p as int, p as int) =~= Seq::<bool>::empty());
    } else {
        assert(w2 == w + u64_bits(x, n as nat));
        let sub = bits_of(d).subrange(p as int, p + n);
        assert forall|i: int| 0 <= i < n implies sub[i] == u64_bits(x, n as nat)[i] by {
            assert(bits_of(d)[p + i] == w2[p + i]);
        }
        assert(sub =~= u64_bits(x, n as nat));
        lemma_u64_bits_value(x, n as nat);
    }
}

/// Padding to a byte boundary and skipping to it.
pub proof fn lemma_align_rt(d: Seq<u8>, w: Seq<bool>, cap: nat, w2: Seq<bool>)
    requires
        w_align(w, cap) == Ok::<Seq<bool>, BitError>(w2),
        w2.len() <= rcap(d),
    ensures
        r_align(d, w.len()) == Ok::<nat, BitError>(w2.len()),
        w2 == padded(w),
        w2.len() % 8 == 0,
        written_in(w, w2),
{
}

/// The bytes of a byte-aligned chunk that was written.
proof fn lemma_chunk_bytes(d: Seq<u8>, w: Seq<bool>, s: Seq<u8>, w2: Seq<bool>)
    requires
        w.len() % 8 == 0,
        w2 == w + bits_of(s),
        written_in(w2, bits_of(d)),
    ensures
        d.subrange((w.len() / 8) as int, (w.len() / 8 + s.len()) as int) == s,
{
    lemma_bits_of_len(s);
    lemma_bits_of_len(d);
    let a = w.len() / 8;
    assert forall|i: int| 0 <= i < s.len() * 8 implies #[trigger] bits_of(d)[a * 8 + i] == bits_of(s)[i] by {
        assert(bits_of(d)[w.len() + i] == w2[w.len() + i]);
    }
    lemma_bytes_from_bits(d, a, s);
}

/// Reading little-endian bytes that were written.
pub proof fn lemma_le_rt(d: Seq<u8>, w: Seq<bool>, cap: nat, v: u64, n: nat, w2: Seq<bool>)
    requires
        w_le(w, cap, v, n) == Ok::<Seq<bool>, BitError>(w2),
        written_in(w2, bits_of(d)),
        w2.len() <= rcap(d),
        (v as nat) < vstd::arithmetic::power::pow(256, n),
    ensures
        r_le(d, w.len(), n) == Ok::<(nat, nat), BitError>((v as nat, w2.len())),
        w2.len() == w.len() + 8 * n,
        written_in(w, w2),
{
    lemma_le_bytes_len(v as nat, n);
    lemma_bits_of_len(le_bytes(v as nat, n));
    lemma_chunk_bytes(d, w, le_bytes(v as nat, n), w2);
    lemma_le_roundtrip(v as nat, n);
    assert(w.len() / 8 + n == (w.len() / 8 + n) as nat);
}

/// Reading a varint that was written.
pub proof fn lemma_varu32_rt(d: Seq<u8>, w: Seq<bool>, cap: nat, v: u32, w2: Seq<bool>)
    requires
        w_varu32(w, cap, v) == Ok::<Seq<bool>, BitError>(w2),
        written_in(w2, bits_of(d)),
        w2.len() <= rcap(d),
    ensures
        r_varu32(d, w.len()) == Ok::<(u32, nat), BitError>((v, w2.len())),
        w2.len() == w.len() + 8 * varu32_bytes(v).len(),
        written_in(w, w2),
{
    let s = varu32_bytes(v);
    lemma_bits_of_len(s);
    lemma_bits_of_len(d);
    lemma_chunk_bytes(d, w, s, w2);
    vstd::arithmetic::power2::lemma2_to64();
    lemma_varu32_parse_roundtrip(d, w.len(), rcap(d), 0, v);
}

/// The value of a signed field is read back from its bit pattern.
proof fn lemma_sint_rt(bits: u8, x: i64, p: u64)
    requires
        1 <= bits <= 64,
        sint_pattern(bits, x) == Some(p),
    ensures
        sint_value(bits, p) == x,
{
    if bits >= 64 {
        assert(((x as u64) as i64) == x) by (bit_vector);
    } else {
        vstd::arithmetic::power2::lemma_pow2_unfold(bits as nat);
        vstd::arithmetic::power2::lemma_pow2_pos((bits - 1) as nat);
        vstd::arithmetic::power2::lemma2_to64();
        vstd::arithmetic::power2::lemma2_to64_rest();
        if bits < 63 {
            vstd::arithmetic::power2::lemma_pow2_strictly_increases(bits as nat, 63);
        }
        assert(pow2(bits as nat) <= pow2(63));
        if x < 0 {
            assert(pow2(bits as nat) == 2 * pow2((bits - 1) as nat));
            assert(x >= -(pow2((bits - 1) as nat) as int));
            assert(x + pow2(bits as nat) >= 0);
            assert(x + pow2(bits as nat) < pow2(63));
            assert(p == x + pow2(bits as nat));
        } else {
            assert(p == x);
        }
    }
}

/// Decoding a field that was encoded gives back the value.
pub proof fn lemma_field_rt(d: Seq<u8>, w: Seq<bool>, cap: nat, cid: ComponentId, f: FieldDef, v: FieldValue, w2: Seq<bool>)
    requires
        enc_field(w, cap, cid, f, v) == Ok::<Seq<bool>, CodecError>(w2),
        written_in(w2, bits_of(d)),
        w2.len() <= rcap(d),
    ensures
        dec_field(d, w.len(), cid, f) == Ok::<(FieldValue, nat), CodecError>((v, w2.len())),
        written_in(w, w2),
{
    match (f.codec, v) {
        (FieldCodec::Bool, FieldValue::Bool(b)) => {
            lemma_bit_rt(d, w, cap, b, w2);
        },
        (FieldCodec::UInt { bits }, FieldValue::UInt(x)) => {
            vstd::arithmetic::power2::lemma2_to64();
            lemma_bits_rt(d, w, cap, x, bits, w2);
        },
        (FieldCodec::SInt { bits }, FieldValue::SInt(x)) => {
            let p = sint_pattern(bits, x)->Some_0;
            lemma_bits_rt(d, w, cap, p, bits, w2);
            if bits == 0 {
                assert(x == 0);
            } else {
                lemma_sint_rt(bits, x, p);
            }
        },
        (FieldCodec::VarUInt, FieldValue::VarUInt(x)) => {
            let w1 = w_align(w, cap)->Ok_0;
            lemma_varu32_rt(d, w1, cap, x as u32, w2);
            lemma_align_rt(d, w, cap, w1);
        },
        (FieldCodec::VarSInt, FieldValue::VarSInt(x)) => {
            let w1 = w_align(w, cap)->Ok_0;
            lemma_varu32_rt(d, w1, cap, zigzag(x as i32), w2);
            lemma_align_rt(d, w, cap, w1);
            lemma_zigzag_roundtrip(x as i32);
        },
        (FieldCodec::FixedPoint(fp), FieldValue::FixedPoint(x)) => {
            let off = fp_offset(fp.min_q, x);
            assert(off == x - fp.min_q);
            assert(((fp.max_q - fp.min_q) as u64 as nat) == fp.max_q - fp.min_q);
            if fp_bits(fp.min_q, fp.max_q) == 0 {
                assert(fp.max_q - fp.min_q == 0) by {
                    reveal_with_fuel(super::model::required_bits_spec, 2);
                    if fp.max_q - fp.min_q > 0 {
                        super::model::lemma_required_bits((fp.max_q - fp.min_q) as nat);
                    }
                }
            }
            lemma_bits_rt(d, w, cap, off, fp_bits(fp.min_q, fp.max_q), w2);
            assert(off == x - fp.min_q);
        },
        _ => {},
    }
}

// ---------------------------------------------------------------------------
// Components.
/// `n` one bits.
pub open spec fn ones(n: nat) -> Seq<bool> {
    Seq::new(n, |i: int| true)
}

proof fn lemma_ones_written(w: Seq<bool>, cap: nat, n: nat, k: nat, w2: Seq<bool>)
    requires
        k <= n,
        enc_ones(w, cap, n, k) == Ok::<Seq<bool>, CodecError>(w2),
    ensures
        w2 =~= w + ones((n - k) as nat),
    decreases n - k,
{
    if k < n {
        let w1 = w.push(true);
        lemma_ones_written(w1, cap, n, k + 1, w2);
        assert(w1 + ones((n - k - 1) as nat) =~= w + ones((n - k) as nat));
    }
}

proof fn lemma_values_rt(
    d: Seq<u8>,
    w: Seq<bool>,
    cap: nat,
    cid: ComponentId,
    fs: Seq<FieldDef>,
    vs: Seq<FieldValue>,
    mask: Seq<bool>,
    k: nat,
    w2: Seq<bool>,
)
    requires
        k <= fs.len(),
        vs.len() == fs.len(),
        mask.len() == fs.len(),
        forall|j: int| k <= j < fs.len() ==> #[trigger] mask[j],
        enc_values(w, cap, cid, fs, vs, k) == Ok::<Seq<bool>, CodecError>(w2),
        written_in(w2, bits_of(d)),
        w2.len() <= rcap(d),
    ensures
        dec_values(d, w.len(), cid, fs, mask, k) == Ok::<(Seq<FieldValue>, nat), CodecError>(
            (vs.subrange(k as int, fs.len() as int), w2.len()),
        ),
        written_in(w, w2),
    decreases fs.len() - k,
{
    if k < fs.len() {
        let w1 = enc_field(w, cap, cid, fs[k as int], vs[k as int])->Ok_0;
        lemma_values_rt(d, w1, cap, cid, fs, vs, mask, k + 1, w2);
        lemma_field_rt(d, w, cap, cid, fs[k as int], vs[k as int], w1);
        assert(seq![vs[k as int]] + vs.subrange((k + 1) as int, fs.len() as int) =~= vs.subrange(k as int, fs.len() as int));
    } else {
        assert(vs.subrange(k as int, fs.len() as int) =~= Seq::<FieldValue>::empty());
    }
}

proof fn lemma_field_extends(w: Seq<bool>, cap: nat, cid: ComponentId, f: FieldDef, v: FieldValue, w2: Seq<bool>)
    requires
        enc_field(w, cap, cid, f, v) == Ok::<Seq<bool>, CodecError>(w2),
    ensures
        written_in(w, w2),
{
    match (f.codec, v) {
        (FieldCodec::VarUInt, FieldValue::VarUInt(x)) => {
            assert(written_in(w, w_align(w, cap)->Ok_0));
        },
        (FieldCodec::VarSInt, FieldValue::VarSInt(x)) => {
            assert(written_in(w, w_align(w, cap)->Ok_0));
        },
        _ => {},
    }
}

proof fn lemma_values_extends(w: Seq<bool>, cap: nat, cid: ComponentId, fs: Seq<FieldDef>, vs: Seq<FieldValue>, k: nat, w2: Seq<bool>)
    requires
        enc_values(w, cap, cid, fs, vs, k) == Ok::<Seq<bool>, CodecError>(w2),
    ensures
        written_in(w, w2),
    decreases fs.len() - k,
{
    if k < fs.len() {
        let w1 = enc_field(w, cap, cid, fs[k as int], vs[k as int])->Ok_0;
        lemma_field_extends(w, cap, cid, fs[k as int], vs[k as int], w1);
        lemma_values_extends(w1, cap, cid, fs, vs, k + 1, w2);
    }
}

/// Decoding a component that a full encoding wrote gives back its values.
pub proof fn lemma_full_component_rt(
    d: Seq<u8>,
    w: Seq<bool>,
    cap: nat,
    c: ComponentDef,
    vs: Seq<FieldValue>,
    limits: CodecLimits,
    w2: Seq<bool>,
)
    requires
        enc_full_fields(w, cap, c, vs, limits) == Ok::<Seq<bool>, CodecError>(w2),
        written_in(w2, bits_of(d)),
        w2.len() <= rcap(d),
    ensures
        dec_full_component(d, w.len(), c, limits) == Ok::<(Seq<FieldValue>, nat), CodecError>((vs, w2.len())),
        written_in(w, w2),
{
    let n = c.fields@.len();
    let w1 = enc_ones(w, cap, n, 0)->Ok_0;
    lemma_ones_written(w, cap, n, 0, w1);
    lemma_values_extends(w1, cap, c.id, c.fields@, vs, 0, w2);
    let mask = bits_of(d).subrange(w.len() as int, (w.len() + n) as int);
    assert forall|j: int| 0 <= j < n implies #[trigger] mask[j] by {
        assert(bits_of(d)[w.len() + j] == w1[w.len() + j]);
    }
    lemma_values_rt(d, w1, cap, c.id, c.fields@, vs, mask, 0, w2);
    assert(vs.subrange(0, n as int) =~= vs);
}

/// The presence bit of each schema component for an entity's components.
pub open spec fn presence(comps: Seq<ComponentDef>, cs: Seq<ComponentV>) -> Seq<bool> {
    Seq::new(comps.len(), |k: int| find_comp(cs, comps[k].id) is Some)
}

/// An entity's components as decoding yields them: in schema order, each
/// schema component the entity has, with the values of its first occurrence.
pub open spec fn canon_comps(comps: Seq<ComponentDef>, cs: Seq<ComponentV>, k: nat) -> Seq<ComponentV>
    decreases comps.len() - k,
{
    if k >= comps.len() {
        Seq::empty()
    } else {
        match find_comp(cs, comps[k as int].id) {
            None => canon_comps(comps, cs, k + 1),
            Some(i) => seq![(comps[k as int].id, cs[i as int].1)] + canon_comps(comps, cs, k + 1),
        }
    }
}

/// Entities `k..` with their components as decoding yields them.
pub open spec fn canon_entities(comps: Seq<ComponentDef>, es: Seq<EntityV>, k: nat) -> Seq<EntityV>
    decreases es.len() - k,
{
    if k >= es.len() {
        Seq::empty()
    } else {
        seq![(es[k as int].0, canon_comps(comps, es[k as int].1, 0))] + canon_entities(comps, es, k + 1)
    }
}

pub proof fn lemma_mask_written(w: Seq<bool>, cap: nat, comps: Seq<ComponentDef>, cs: Seq<ComponentV>, k: nat, w2: Seq<bool>)
    requires
        k <= comps.len(),
        enc_mask(w, cap, comps, cs, k) == Ok::<Seq<bool>, CodecError>(w2),
    ensures
        w2 =~= w + presence(comps, cs).subrange(k as int, comps.len() as int),
    decreases comps.len() - k,
{
    if k < comps.len() {
        let w1 = w.push(find_comp(cs, comps[k as int].id) is Some);
        lemma_mask_written(w1, cap, comps, cs, k + 1, w2);
        assert(w1 + presence(comps, cs).subrange((k + 1) as int, comps.len() as int) =~= w + presence(comps, cs).subrange(
            k as int,
            comps.len() as int,
        ));
    }
}

proof fn lemma_present_rt(
    d: Seq<u8>,
    w: Seq<bool>,
    cap: nat,
    comps: Seq<ComponentDef>,
    cs: Seq<ComponentV>,
    limits: CodecLimits,
    k: nat,
    w2: Seq<bool>,
)
    requires
        k <= comps.len(),
        enc_present(w, cap, comps, cs, limits, k) == Ok::<Seq<bool>, CodecError>(w2),
        written_in(w2, bits_of(d)),
        w2.len() <= rcap(d),
    ensures
        dec_comps(d, w.len(), comps, presence(comps, cs), limits, k) == Ok::<(Seq<ComponentV>, nat), CodecError>(
            (canon_comps(comps, cs, k), w2.len()),
        ),
        written_in(w, w2),
    decreases comps.len() - k,
{
    if k < comps.len() {
        let mask = presence(comps, cs);
        assert(mask[k as int] == (find_comp(cs, comps[k as int].id) is Some));
        match find_comp(cs, comps[k as int].id) {
            None => {
                lemma_present_rt(d, w, cap, comps, cs, limits, k + 1, w2);
            },
            Some(i) => {
                let w1 = enc_full_fields(w, cap, comps[k as int], cs[i as int].1, limits)->Ok_0;
                lemma_present_rt(d, w1, cap, comps, cs, limits, k + 1, w2);
                lemma_full_component_rt(d, w, cap, comps[k as int], cs[i as int].1, limits, w1);
            },
        }
    }
}

proof fn lemma_entity_rt(d: Seq<u8>, w: Seq<bool>, cap: nat, comps: Seq<ComponentDef>, e: EntityV, limits: CodecLimits, w1: Seq<bool>)
    requires
        enc_entity(w, cap, comps, e, limits) == Ok::<Seq<bool>, CodecError>(w1),
        written_in(w1, bits_of(d)),
        w1.len() <= rcap(d),
    ensures
        ({
            let pa = w.len() + pad_len(w.len());
            &&& r_align(d, w.len()) == Ok::<nat, BitError>(pa)
            &&& r_le(d, pa, 4) == Ok::<(nat, nat), BitError>((e.0@ as nat, pa + 32))
            &&& dec_entity_comps(d, pa + 32, comps, limits) == Ok::<(Seq<ComponentV>, nat), CodecError>(
                (canon_comps(comps, e.1, 0), w1.len()),
            )
        }),
        written_in(w, w1),
        w1.len() >= w.len() + 32,
{
    let wa = w_align(w, cap)->Ok_0;
    let wb = w_le(wa, cap, e.0@ as u64, 4)->Ok_0;
    let wc = enc_mask(wb, cap, comps, e.1, 0)->Ok_0;
    lemma_present_rt(d, wc, cap, comps, e.1, limits, 0, w1);
    lemma_mask_written(wb, cap, comps, e.1, 0, wc);
    assert(presence(comps, e.1).subrange(0, comps.len() as int) =~= presence(comps, e.1));
    assert(vstd::arithmetic::power::pow(256, 4) == 0x1_0000_0000) by {
        reveal_with_fuel(vstd::arithmetic::power::pow, 5);
    }
    lemma_le_rt(d, wa, cap, e.0@ as u64, 4, wb);
    lemma_align_rt(d, w, cap, wa);
    let mask = bits_of(d).subrange(wb.len() as int, (wb.len() + comps.len()) as int);
    assert(mask =~= presence(comps, e.1)) by {
        assert forall|j: int| 0 <= j < comps.len() implies mask[j] == presence(comps, e.1)[j] by {
            assert(bits_of(d)[wb.len() + j] == wc[wb.len() + j]);
        }
    }
}

/// Decoding entities that were encoded gives them back, components in schema order.
pub proof fn lemma_entities_rt(
    d: Seq<u8>,
    w: Seq<bool>,
    cap: nat,
    comps: Seq<ComponentDef>,
    es: Seq<EntityV>,
    limits: CodecLimits,
    k: nat,
    prev: u32,
    w2: Seq<bool>,
)
    requires
        k <= es.len(),
        k > 0 ==> prev == es[k - 1].0@,
        enc_entities(w, cap, comps, es, limits, k) == Ok::<Seq<bool>, CodecError>(w2),
        written_in(w2, bits_of(d)),
        w2.len() <= rcap(d),
    ensures
        dec_entities(d, w.len(), comps, limits, es.len(), k, prev) == Ok::<(Seq<EntityV>, nat), CodecError>(
            (canon_entities(comps, es, k), w2.len()),
        ),
        written_in(w, w2),
        w2.len() >= w.len() + 32 * (es.len() - k),
    decreases es.len() - k,
{
    broadcast use super::types::lemma_entity_id_of_view;
    if k < es.len() {
        let e = es[k as int];
        let w1 = enc_entity(w, cap, comps, e, limits)->Ok_0;
        lemma_entities_rt(d, w1, cap, comps, es, limits, k + 1, e.0@, w2);
        lemma_entity_rt(d, w, cap, comps, e, limits, w1);
        assert(super::types::entity_id_of(e.0@) == e.0);
    }
}

// ---------------------------------------------------------------------------
// Full snapshots.
proof fn lemma_create_body_rt(d: Seq<u8>, cap: nat, comps: Seq<ComponentDef>, es: Seq<EntityV>, limits: CodecLimits, w: Seq<bool>)
    requires
        enc_create_body(Seq::empty(), cap, comps, es, limits) == Ok::<Seq<bool>, CodecError>(w),
        bits_of(d) == w,
        cap <= usize::MAX,
        d.len() <= limits.max_section_bytes,
        d.len() <= u32::MAX,
        es.len() <= limits.max_entities_create,
    ensures
        dec_create_section(d, comps, limits) == Ok::<Seq<EntityV>, CodecError>(canon_entities(comps, es, 0)),
{
    lemma_bits_of_len(d);
    let w0 = Seq::<bool>::empty();
    let w1 = w_align(w0, cap)->Ok_0;
    assert(w1 =~= w0);
    let w2 = w_varu32(w1, cap, es.len() as u32)->Ok_0;
    let w3 = enc_entities(w2, cap, comps, es, limits, 0)->Ok_0;
    assert(w_align(w3, cap) == Ok::<Seq<bool>, BitError>(w));
    assert(w.len() <= cap);
    assert(rcap(d) == w.len());
    assert(written_in(w3, bits_of(d))) by {
        assert(w == padded(w3));
    }
    lemma_entities_rt(d, w2, cap, comps, es, limits, 0, 0, w3);
    lemma_varu32_rt(d, w1, cap, es.len() as u32, w2);
    lemma_align_rt(d, w3, cap, w);
    assert(es.len() <= u32::MAX);
}

/// A header followed by a framed section, as bytes.
proof fn lemma_packet_bytes(out: Seq<u8>, h: PacketHeader, tag: SectionTag, w: Seq<bool>, n: nat)
    requires
        out.take(HEADER_SIZE as int) == header_bytes(h),
        header_bytes(h).len() == HEADER_SIZE,
        section_at(out, HEADER_SIZE as int, tag, w),
        n == HEADER_SIZE + section_total(w.len() / 8),
        n <= out.len(),
    ensures
        ({
            let m = w.len() / 8;
            let vl = varu32_bytes(m as u32);
            let o = HEADER_SIZE as int;
            let body = out.subrange(o + 1 + vl.len(), o + 1 + vl.len() + m);
            &&& out.take(n as int) == header_bytes(h) + section_bytes(tag, body)
            &&& out.take(n as int).skip(o) == section_bytes(tag, body)
            &&& bits_of(body) == w
            &&& body.len() == m
        }),
{
    let m = w.len() / 8;
    let vl = varu32_bytes(m as u32);
    lemma_varu32_len(m as u32);
    let o = HEADER_SIZE as int;
    let body = out.subrange(o + 1 + vl.len(), o + 1 + vl.len() + m);
    let sb = section_bytes(tag, body);
    let buf = out.take(n as int);
    assert(buf.skip(o) =~= sb) by {
        assert forall|j: int| 0 <= j < sb.len() implies #[trigger] buf.skip(o)[j] == sb[j] by {
            if j == 0 {
            } else if j < 1 + vl.len() {
                assert(out.subrange(o + 1, o + 1 + vl.len())[j - 1] == vl[j - 1]);
            } else {
                assert(body[j - 1 - vl.len()] == out[o + j]);
            }
        }
    }
    assert(buf =~= header_bytes(h) + sb) by {
        assert forall|j: int| 0 <= j < buf.len() implies #[trigger] buf[j] == (header_bytes(h) + sb)[j] by {
            if j < o {
                assert(out.take(o)[j] == out[j]);
            } else {
                assert(buf.skip(o)[j - o] == buf[j]);
            }
        }
    }
}

/// The bytes a full snapshot packet takes when encoding succeeds.
pub open spec fn full_packet_len(plan: Result<Option<Seq<bool>>, CodecError>) -> nat {
    match plan {
        Ok(Some(w)) => (HEADER_SIZE + section_total(w.len() / 8)) as nat,
        _ => HEADER_SIZE as nat,
    }
}

proof fn lemma_one_section_packet(out: Seq<u8>, h: PacketHeader, tag: SectionTag, w: Seq<bool>, wire_limits: Limits)
    requires
        out.take(HEADER_SIZE as int) == header_bytes(h),
        section_at(out, HEADER_SIZE as int, tag, w),
        HEADER_SIZE + section_total(w.len() / 8) <= out.len(),
        HEADER_SIZE + section_total(w.len() / 8) <= wire_limits.max_packet_bytes,
        h.payload_len == section_total(w.len() / 8),
        h.version == crate::wire::VERSION,
        valid_v2(h.flags.0),
        !crate::wire::has_session(h.flags.0) && has_full(h.flags.0) ==> h.baseline_tick == 0,
        !crate::wire::has_session(h.flags.0) && crate::wire::has_delta(h.flags.0) ==> h.baseline_tick != 0,
        1 <= wire_limits.max_sections,
        w.len() / 8 <= wire_limits.max_section_len,
        w.len() / 8 <= u32::MAX,
    ensures
        ({
            let m = w.len() / 8;
            let vl = varu32_bytes(m as u32);
            let o = HEADER_SIZE as int;
            let body = out.subrange(o + 1 + vl.len(), o + 1 + vl.len() + m);
            &&& spec_decode_packet(out.take(HEADER_SIZE + section_total(w.len() / 8)), wire_limits) == Ok::<
                (PacketHeader, Seq<(SectionTag, Seq<u8>)>),
                crate::wire::DecodeError,
            >((h, seq![(tag, body)]))
            &&& bits_of(body) == w
        }),
{
    let t = section_total(w.len() / 8);
    let n = (HEADER_SIZE + t) as nat;
    super::full::lemma_header_bytes_len(h);
    let m = w.len() / 8;
    let vl = varu32_bytes(m as u32);
    lemma_varu32_len(m as u32);
    let o = HEADER_SIZE as int;
    let body = out.subrange(o + 1 + vl.len(), o + 1 + vl.len() + m);
    let sb = section_bytes(tag, body);
    let buf = out.take(n as int);
    lemma_packet_bytes(out, h, tag, w, n);
    lemma_header_roundtrip(h, sb, wire_limits);
    let items = seq![(tag, body)];
    assert(sections_bytes(items) =~= sb) by {
        assert(items.drop_first() =~= Seq::<(SectionTag, Seq<u8>)>::empty());
        assert(sections_bytes(items.drop_first()) =~= Seq::<u8>::empty());
    }
    assert(buf.skip(HEADER_SIZE as int).skip(0) =~= sb);
    lemma_sections_roundtrip(buf.skip(HEADER_SIZE as int), 0, 0, items, wire_limits);
}

proof fn lemma_full_some_rt(
    comps: Seq<ComponentDef>,
    es: Seq<EntityV>,
    tick: SnapshotTick,
    limits: CodecLimits,
    wire_limits: Limits,
    out: Seq<u8>,
    cap: nat,
    w: Seq<bool>,
)
    requires
        enc_create_body(Seq::empty(), cap, comps, es, limits) == Ok::<Seq<bool>, CodecError>(w),
        cap <= usize::MAX,
        w.len() / 8 <= limits.max_section_bytes,
        w.len() / 8 <= u32::MAX,
        es.len() <= limits.max_entities_create,
        out.take(HEADER_SIZE as int) == header_bytes(full_header(comps, tick, section_total(w.len() / 8))),
        section_at(out, HEADER_SIZE as int, SectionTag::EntityCreate, w),
        HEADER_SIZE + section_total(w.len() / 8) <= out.len(),
        HEADER_SIZE + section_total(w.len() / 8) <= wire_limits.max_packet_bytes,
        section_total(w.len() / 8) <= u32::MAX,
        1 <= wire_limits.max_sections,
        w.len() / 8 <= wire_limits.max_section_len,
    ensures
        ({
            let n = HEADER_SIZE + section_total(w.len() / 8);
            match spec_decode_packet(out.take(n as int), wire_limits) {
                Ok((h, secs)) => full_from_packet(comps, h, secs, limits) == Ok::<
                    (SnapshotTick, Seq<EntityV>),
                    CodecError,
                >((tick, canon_entities(comps, es, 0))),
                Err(_) => false,
            }
        }),
{
    broadcast use super::types::lemma_tick_of_view;
    let t = section_total(w.len() / 8);
    let h = full_header(comps, tick, t);
    assert(valid_v2(1u16)) by (bit_vector);
    assert(has_full(1u16)) by (bit_vector);
    assert(!crate::wire::has_session(1u16)) by (bit_vector);
    lemma_one_section_packet(out, h, SectionTag::EntityCreate, w, wire_limits);
    let m = w.len() / 8;
    let vl = varu32_bytes(m as u32);
    let o = HEADER_SIZE as int;
    let body = out.subrange(o + 1 + vl.len(), o + 1 + vl.len() + m);
    lemma_bits_of_len(body);
    lemma_create_body_rt(body, cap, comps, es, limits, w);
    let secs = seq![(SectionTag::EntityCreate, body)];
    assert(super::full::full_sections(comps, secs, limits, 1, Some(canon_entities(comps, es, 0))) == Ok::<
        Seq<EntityV>,
        CodecError,
    >(canon_entities(comps, es, 0)));
}

/// A full snapshot packet reads back as the snapshot: decoding the bytes
/// that `encode_full_snapshot` wrote gives its tick and entities, each
/// entity with its components in schema order. This holds within the wire
/// limits the decoder applies, and for payloads that fit the header's
/// 32-bit length.
pub proof fn lemma_full_snapshot_roundtrip(
    comps: Seq<ComponentDef>,
    es: Seq<EntityV>,
    tick: SnapshotTick,
    limits: CodecLimits,
    wire_limits: Limits,
    out: Seq<u8>,
)
    requires
        full_plan(comps, es, limits, out.len()) is Ok,
        out.take(HEADER_SIZE as int) == header_bytes(
            full_header(comps, tick, (full_packet_len(full_plan(comps, es, limits, out.len())) - HEADER_SIZE) as nat),
        ),
        full_plan(comps, es, limits, out.len()) matches Ok(Some(w)) ==> section_at(
            out,
            HEADER_SIZE as int,
            SectionTag::EntityCreate,
            w,
        ),
        full_packet_len(full_plan(comps, es, limits, out.len())) <= wire_limits.max_packet_bytes,
        full_packet_len(full_plan(comps, es, limits, out.len())) - HEADER_SIZE <= u32::MAX,
        full_plan(comps, es, limits, out.len()) matches Ok(Some(w)) ==> 1 <= wire_limits.max_sections && w.len() / 8
            <= wire_limits.max_section_len,
    ensures
        ({
            let n = full_packet_len(full_plan(comps, es, limits, out.len()));
            match spec_decode_packet(out.take(n as int), wire_limits) {
                Ok((h, secs)) => full_from_packet(comps, h, secs, limits) == Ok::<
                    (SnapshotTick, Seq<EntityV>),
                    CodecError,
                >((tick, canon_entities(comps, es, 0))),
                Err(_) => false,
            }
        }),
{
    broadcast use super::types::lemma_tick_of_view;
    let plan = full_plan(comps, es, limits, out.len());
    match plan {
        Ok(None) => {
            let h = full_header(comps, tick, 0);
            super::full::lemma_header_bytes_len(h);
            assert(valid_v2(1u16)) by (bit_vector);
            assert(has_full(1u16)) by (bit_vector);
            let buf = out.take(HEADER_SIZE as int);
            assert(buf =~= header_bytes(h) + Seq::<u8>::empty());
            lemma_header_roundtrip(h, Seq::<u8>::empty(), wire_limits);
            assert(buf.skip(HEADER_SIZE as int) =~= Seq::<u8>::empty());
            assert(canon_entities(comps, es, 0) =~= Seq::<EntityV>::empty());
        },
        Ok(Some(w)) => {
            let avail = (out.len() - HEADER_SIZE) as nat;
            let cap = cap_bits((avail - SECTION_PREFIX) as nat);
            lemma_full_some_rt(comps, es, tick, limits, wire_limits, out, cap, w);
        },
        Err(_) => {},
    }
}

} // verus!
