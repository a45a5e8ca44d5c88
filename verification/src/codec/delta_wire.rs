//! Reading back delta section bodies: each decoder, run on the body an
//! encoder wrote, gives back what the delta carries.
use super::delta_body::{
    enc_bits, enc_masked_body, enc_masked_pairs, enc_masked_values, enc_update_components, upd_first, upd_second, enc_created, enc_created_comps, enc_created_entity, enc_delta_create_body, enc_destroy_body,
    enc_destroy_ids, enc_full_component,
};
use super::delta_dec::{
    dec_count, dec_delta_comps, dec_delta_create_section, dec_delta_entities, dec_destroy_ids,
    dec_destroy_section, dec_masked_section, dec_upd_comps, dec_upd_entities, dec_upd_values, finish_section,
    size_error, UpdCompV, UpdEntV,
};
use super::delta_law::{changed, comp_mask, comp_updates, comps_ok, entity_updates};
use super::diff::{count_true, has_updates, mask_from, updates_from};
use super::error::{CodecError, MaskKind};
use super::full::enc_full_fields;
use super::limits::CodecLimits;
use super::model::{enc_field, r_align, r_le, rcap, w_align, w_le, w_varu32, FieldValue};
use super::roundtrip::{
    canon_comps, lemma_align_rt, lemma_field_rt, lemma_full_component_rt, lemma_le_rt, lemma_mask_written, lemma_varu32_rt,
    presence, written_in,
};
use super::snapshot::{dec_mask, enc_mask, find_comp, schema_has, unknown_from, ComponentV, EntityV};
use super::types::EntityId;
use crate::bitstream::bits::{bits_of, lemma_bits_of_len, pad_len, padded};
use crate::schema::{ComponentDef, ComponentId, FieldDef};
use crate::bitstream::BitError;
use vstd::prelude::*;

verus! {

proof fn lemma_pow256_4()
    ensures
        vstd::arithmetic::power::pow(256, 4) == 0x1_0000_0000,
{
    reveal_with_fuel(vstd::arithmetic::power::pow, 5);
}

/// Ids of the baseline entities at `ds`.
pub open spec fn ids_at(b: Seq<EntityV>, ds: Seq<nat>) -> Seq<EntityId> {
    ds.map_values(|x: nat| b[x as int].0)
}

#[verifier::rlimit(40)]
proof fn lemma_destroy_ids_rt(
    d: Seq<u8>,
    w: Seq<bool>,
    cap: nat,
    b: Seq<EntityV>,
    ds: Seq<nat>,
    k: nat,
    prev: u32,
    acc: Seq<EntityId>,
    w2: Seq<bool>,
)
    requires
        k <= ds.len(),
        forall|t: int, u: int| 0 <= t < u < ds.len() ==> b[ds[t] as int].0@ < b[ds[u] as int].0@,
        k > 0 ==> prev == b[ds[k - 1] as int].0@,
        enc_destroy_ids(w, cap, b, ds, k) == Ok::<Seq<bool>, CodecError>(w2),
        written_in(w2, bits_of(d)),
        w2.len() <= rcap(d),
    ensures
        dec_destroy_ids(d, w.len(), ds.len(), k, prev, acc) == Ok::<(Seq<EntityId>, nat), CodecError>(
            (acc + ids_at(b, ds).subrange(k as int, ds.len() as int), w2.len()),
        ),
        written_in(w, w2),
        w2.len() >= w.len() + 32 * (ds.len() - k),
    decreases ds.len() - k,
{
    broadcast use super::types::lemma_entity_id_of_view;
    if k < ds.len() {
        let id = b[ds[k as int] as int].0;
        let w1 = w_align(w, cap)->Ok_0;
        let wb = w_le(w1, cap, id@ as u64, 4)->Ok_0;
        lemma_destroy_ids_rt(d, wb, cap, b, ds, k + 1, id@, acc.push(id), w2);
        lemma_pow256_4();
        lemma_le_rt(d, w1, cap, id@ as u64, 4, wb);
        lemma_align_rt(d, w, cap, w1);
        assert(super::types::entity_id_of(id@) == id);
        assert(acc.push(id) + ids_at(b, ds).subrange((k + 1) as int, ds.len() as int) =~= acc + ids_at(b, ds).subrange(
            k as int,
            ds.len() as int,
        ));
        if k > 0 {
            assert(b[ds[k - 1] as int].0@ < b[ds[k as int] as int].0@);
        }
    } else {
        assert(acc + ids_at(b, ds).subrange(k as int, ds.len() as int) =~= acc);
    }
}

/// Decoding a destroy section body that was encoded gives the destroyed ids.
pub proof fn lemma_destroy_body_rt(d: Seq<u8>, cap: nat, b: Seq<EntityV>, ds: Seq<nat>, limits: CodecLimits, w: Seq<bool>)
    requires
        forall|t: int, u: int| 0 <= t < u < ds.len() ==> b[ds[t] as int].0@ < b[ds[u] as int].0@,
        enc_destroy_body(Seq::empty(), cap, b, ds, limits) == Ok::<Seq<bool>, CodecError>(w),
        bits_of(d) == w,
        cap <= usize::MAX,
        d.len() <= limits.max_section_bytes,
        d.len() <= u32::MAX,
    ensures
        dec_destroy_section(d, limits) == Ok::<Seq<EntityId>, CodecError>(ids_at(b, ds)),
{
    lemma_bits_of_len(d);
    let w0 = Seq::<bool>::empty();
    let w1 = w_align(w0, cap)->Ok_0;
    assert(w1 =~= w0);
    let w2 = w_varu32(w1, cap, ds.len() as u32)->Ok_0;
    let w3 = enc_destroy_ids(w2, cap, b, ds, 0)->Ok_0;
    assert(w_align(w3, cap) == Ok::<Seq<bool>, BitError>(w));
    assert(rcap(d) == w.len());
    assert(written_in(w3, bits_of(d))) by {
        assert(w == padded(w3));
    }
    lemma_destroy_ids_rt(d, w2, cap, b, ds, 0, 0, Seq::empty(), w3);
    lemma_varu32_rt(d, w1, cap, ds.len() as u32, w2);
    lemma_align_rt(d, w3, cap, w);
    assert(ds.len() <= u32::MAX);
    assert(Seq::<EntityId>::empty() + ids_at(b, ds).subrange(0, ds.len() as int) =~= ids_at(b, ds));
}

// ---------------------------------------------------------------------------
// Create section.
/// Created entities at `idx` of the current list, as decoding yields them.
pub open spec fn created_at(comps: Seq<ComponentDef>, c: Seq<EntityV>, idx: Seq<nat>) -> Seq<EntityV> {
    idx.map_values(|y: nat| (c[y as int].0, canon_comps(comps, c[y as int].1, 0)))
}

proof fn lemma_full_component_same(w: Seq<bool>, cap: nat, c: ComponentDef, vs: Seq<FieldValue>, limits: CodecLimits, w2: Seq<bool>)
    requires
        enc_full_component(w, cap, c, vs, limits) == Ok::<Seq<bool>, CodecError>(w2),
    ensures
        enc_full_fields(w, cap, c, vs, limits) == Ok::<Seq<bool>, CodecError>(w2),
{
}

#[verifier::rlimit(40)]
proof fn lemma_created_comps_rt(
    d: Seq<u8>,
    w: Seq<bool>,
    cap: nat,
    comps: Seq<ComponentDef>,
    cs: Seq<ComponentV>,
    limits: CodecLimits,
    k: nat,
    acc: Seq<ComponentV>,
    w2: Seq<bool>,
)
    requires
        k <= comps.len(),
        enc_created_comps(w, cap, comps, cs, limits, k) == Ok::<Seq<bool>, CodecError>(w2),
        written_in(w2, bits_of(d)),
        w2.len() <= rcap(d),
    ensures
        dec_delta_comps(d, w.len(), comps, presence(comps, cs), limits, k, acc) == Ok::<(Seq<ComponentV>, nat), CodecError>(
            (acc + canon_comps(comps, cs, k), w2.len()),
        ),
        written_in(w, w2),
    decreases comps.len() - k,
{
    if k < comps.len() {
        let mask = presence(comps, cs);
        assert(mask[k as int] == (find_comp(cs, comps[k as int].id) is Some));
        match find_comp(cs, comps[k as int].id) {
            None => {
                lemma_created_comps_rt(d, w, cap, comps, cs, limits, k + 1, acc, w2);
            },
            Some(i) => {
                let w1 = enc_full_component(w, cap, comps[k as int], cs[i as int].1, limits)->Ok_0;
                let e = (comps[k as int].id, cs[i as int].1);
                lemma_created_comps_rt(d, w1, cap, comps, cs, limits, k + 1, acc.push(e), w2);
                lemma_full_component_same(w, cap, comps[k as int], cs[i as int].1, limits, w1);
                lemma_full_component_rt(d, w, cap, comps[k as int], cs[i as int].1, limits, w1);
                assert(acc.push(e) + canon_comps(comps, cs, k + 1) =~= acc + canon_comps(comps, cs, k));
            },
        }
    } else {
        assert(acc + canon_comps(comps, cs, k) =~= acc);
    }
}

proof fn lemma_canon_known(comps: Seq<ComponentDef>, cs: Seq<ComponentV>, k: nat, i: nat)
    requires
        k <= comps.len(),
    ensures
        unknown_from(comps, canon_comps(comps, cs, k), i) is None,
    decreases comps.len() - k, canon_comps(comps, cs, k).len() - i,
{
    let l = canon_comps(comps, cs, k);
    if i < l.len() {
        lemma_canon_member(comps, cs, k, i as int);
        lemma_canon_known(comps, cs, k, i + 1);
    }
}

proof fn lemma_canon_member(comps: Seq<ComponentDef>, cs: Seq<ComponentV>, k: nat, t: int)
    requires
        k <= comps.len(),
        0 <= t < canon_comps(comps, cs, k).len(),
    ensures
        schema_has(comps, canon_comps(comps, cs, k)[t].0),
    decreases comps.len() - k,
{
    if k < comps.len() {
        match find_comp(cs, comps[k as int].id) {
            None => {
                lemma_canon_member(comps, cs, k + 1, t);
            },
            Some(x) => {
                if t == 0 {
                    assert(comps[k as int].id == canon_comps(comps, cs, k)[0].0);
                } else {
                    lemma_canon_member(comps, cs, k + 1, t - 1);
                }
            },
        }
    }
}

#[verifier::rlimit(40)]
proof fn lemma_created_entity_rt(d: Seq<u8>, w: Seq<bool>, cap: nat, comps: Seq<ComponentDef>, e: EntityV, limits: CodecLimits, w1: Seq<bool>)
    requires
        enc_created_entity(w, cap, comps, e, limits) == Ok::<Seq<bool>, CodecError>(w1),
        written_in(w1, bits_of(d)),
        w1.len() <= rcap(d),
    ensures
        ({
            let pa = w.len() + pad_len(w.len());
            &&& r_align(d, w.len()) == Ok::<nat, BitError>(pa)
            &&& r_le(d, pa, 4) == Ok::<(nat, nat), BitError>((e.0@ as nat, pa + 32))
            &&& dec_mask(d, pa + 32, comps.len(), MaskKind::ComponentMask) == Ok::<(Seq<bool>, nat), CodecError>(
                (presence(comps, e.1), pa + 32 + comps.len()),
            )
            &&& dec_delta_comps(d, pa + 32 + comps.len(), comps, presence(comps, e.1), limits, 0, Seq::empty())
                == Ok::<(Seq<ComponentV>, nat), CodecError>((canon_comps(comps, e.1, 0), w1.len()))
        }),
        written_in(w, w1),
        w1.len() >= w.len() + 32,
{
    let wa = w_align(w, cap)->Ok_0;
    let wb = w_le(wa, cap, e.0@ as u64, 4)->Ok_0;
    let wc = enc_mask(wb, cap, comps, e.1, 0)->Ok_0;
    lemma_created_comps_rt(d, wc, cap, comps, e.1, limits, 0, Seq::empty(), w1);
    lemma_mask_written(wb, cap, comps, e.1, 0, wc);
    assert(presence(comps, e.1).subrange(0, comps.len() as int) =~= presence(comps, e.1));
    lemma_pow256_4();
    lemma_le_rt(d, wa, cap, e.0@ as u64, 4, wb);
    lemma_align_rt(d, w, cap, wa);
    let mask = bits_of(d).subrange(wb.len() as int, (wb.len() + comps.len()) as int);
    assert(mask =~= presence(comps, e.1)) by {
        assert forall|j: int| 0 <= j < comps.len() implies mask[j] == presence(comps, e.1)[j] by {
            assert(bits_of(d)[wb.len() + j] == wc[wb.len() + j]);
        }
    }
    assert(Seq::<ComponentV>::empty() + canon_comps(comps, e.1, 0) =~= canon_comps(comps, e.1, 0));
}

#[verifier::rlimit(40)]
proof fn lemma_created_rt(
    d: Seq<u8>,
    w: Seq<bool>,
    cap: nat,
    comps: Seq<ComponentDef>,
    c: Seq<EntityV>,
    idx: Seq<nat>,
    limits: CodecLimits,
    k: nat,
    prev: u32,
    acc: Seq<EntityV>,
    w2: Seq<bool>,
)
    requires
        k <= idx.len(),
        forall|t: int, u: int| 0 <= t < u < idx.len() ==> c[idx[t] as int].0@ < c[idx[u] as int].0@,
        k > 0 ==> prev == c[idx[k - 1] as int].0@,
        enc_created(w, cap, comps, c, idx, limits, k) == Ok::<Seq<bool>, CodecError>(w2),
        written_in(w2, bits_of(d)),
        w2.len() <= rcap(d),
    ensures
        dec_delta_entities(d, w.len(), comps, limits, idx.len(), k, prev, acc) == Ok::<(Seq<EntityV>, nat), CodecError>(
            (acc + created_at(comps, c, idx).subrange(k as int, idx.len() as int), w2.len()),
        ),
        written_in(w, w2),
        w2.len() >= w.len() + 32 * (idx.len() - k),
    decreases idx.len() - k,
{
    broadcast use super::types::lemma_entity_id_of_view;
    if k < idx.len() {
        let e = c[idx[k as int] as int];
        let w1 = enc_created_entity(w, cap, comps, e, limits)->Ok_0;
        let de = (e.0, canon_comps(comps, e.1, 0));
        lemma_created_rt(d, w1, cap, comps, c, idx, limits, k + 1, e.0@, acc.push(de), w2);
        lemma_created_entity_rt(d, w, cap, comps, e, limits, w1);
        lemma_canon_known(comps, e.1, 0, 0);
        assert(super::types::entity_id_of(e.0@) == e.0);
        if k > 0 {
            assert(c[idx[k - 1] as int].0@ < c[idx[k as int] as int].0@);
        }
        assert(acc.push(de) + created_at(comps, c, idx).subrange((k + 1) as int, idx.len() as int) =~= acc + created_at(
            comps,
            c,
            idx,
        ).subrange(k as int, idx.len() as int));
    } else {
        assert(acc + created_at(comps, c, idx).subrange(k as int, idx.len() as int) =~= acc);
    }
}

/// Decoding a delta's create section body that was encoded gives the
/// created entities, components in schema order.
pub proof fn lemma_create_body_rt(d: Seq<u8>, cap: nat, comps: Seq<ComponentDef>, c: Seq<EntityV>, idx: Seq<nat>, limits: CodecLimits, w: Seq<bool>)
    requires
        forall|t: int, u: int| 0 <= t < u < idx.len() ==> c[idx[t] as int].0@ < c[idx[u] as int].0@,
        enc_delta_create_body(Seq::empty(), cap, comps, c, idx, limits) == Ok::<Seq<bool>, CodecError>(w),
        bits_of(d) == w,
        cap <= usize::MAX,
        d.len() <= limits.max_section_bytes,
        d.len() <= u32::MAX,
    ensures
        dec_delta_create_section(d, comps, limits) == Ok::<Seq<EntityV>, CodecError>(created_at(comps, c, idx)),
{
    lemma_bits_of_len(d);
    let w0 = Seq::<bool>::empty();
    let w1 = w_align(w0, cap)->Ok_0;
    assert(w1 =~= w0);
    let w2 = w_varu32(w1, cap, idx.len() as u32)->Ok_0;
    let w3 = enc_created(w2, cap, comps, c, idx, limits, 0)->Ok_0;
    assert(w_align(w3, cap) == Ok::<Seq<bool>, BitError>(w));
    assert(rcap(d) == w.len());
    assert(written_in(w3, bits_of(d))) by {
        assert(w == padded(w3));
    }
    lemma_created_rt(d, w2, cap, comps, c, idx, limits, 0, 0, Seq::empty(), w3);
    lemma_varu32_rt(d, w1, cap, idx.len() as u32, w2);
    lemma_align_rt(d, w3, cap, w);
    assert(idx.len() <= u32::MAX);
    assert(Seq::<EntityV>::empty() + created_at(comps, c, idx).subrange(0, idx.len() as int) =~= created_at(comps, c, idx));
}

// ---------------------------------------------------------------------------
// Masked update section.
/// The component flags of a masked update: set for each schema component
/// both entities have with a changed field.
pub open spec fn upd_flags(comps: Seq<ComponentDef>, bcs: Seq<ComponentV>, ccs: Seq<ComponentV>) -> Seq<bool> {
    Seq::new(
        comps.len(),
        |k: int|
            match (find_comp(bcs, comps[k].id), find_comp(ccs, comps[k].id)) {
                (Some(bi), Some(ci)) => count_true(comp_mask(comps[k], bcs[bi as int].1, ccs[ci as int].1)) > 0,
                _ => false,
            },
    )
}

proof fn lemma_upd_first(
    w: Seq<bool>,
    cap: nat,
    comps: Seq<ComponentDef>,
    bcs: Seq<ComponentV>,
    ccs: Seq<ComponentV>,
    limits: CodecLimits,
    k: nat,
)
    requires
        k <= comps.len(),
        upd_first(w, cap, comps, bcs, ccs, limits, k) is Ok,
    ensures
        ({
            let (w1, flags) = upd_first(w, cap, comps, bcs, ccs, limits, k)->Ok_0;
            &&& flags == upd_flags(comps, bcs, ccs).subrange(k as int, comps.len() as int)
            &&& w1 == w + flags
            &&& comps_ok(comps, bcs, ccs, limits, k)
        }),
    decreases comps.len() - k,
{
    if k < comps.len() {
        let comp = comps[k as int];
        let fl = upd_flags(comps, bcs, ccs);
        match (find_comp(bcs, comp.id), find_comp(ccs, comp.id)) {
            (Some(bi), Some(ci)) => {
                let m = mask_from(comp.id, comp.fields@, bcs[bi as int].1, ccs[ci as int].1, 0)->Ok_0;
                let any = count_true(m) > 0;
                let w1 = w.push(any);
                lemma_upd_first(w1, cap, comps, bcs, ccs, limits, k + 1);
                let (w2, flags) = upd_first(w1, cap, comps, bcs, ccs, limits, k + 1)->Ok_0;
                assert(fl[k as int] == any);
                assert(seq![any] + flags =~= fl.subrange(k as int, comps.len() as int));
                assert(w1 + flags =~= w + (seq![any] + flags));
            },
            (None, None) => {
                let w1 = w.push(false);
                lemma_upd_first(w1, cap, comps, bcs, ccs, limits, k + 1);
                let (w2, flags) = upd_first(w1, cap, comps, bcs, ccs, limits, k + 1)->Ok_0;
                assert(fl[k as int] == false);
                assert(seq![false] + flags =~= fl.subrange(k as int, comps.len() as int));
                assert(w1 + flags =~= w + (seq![false] + flags));
            },
            _ => {},
        }
    } else {
        assert(upd_flags(comps, bcs, ccs).subrange(k as int, comps.len() as int) =~= Seq::<bool>::empty());
        assert(w + Seq::<bool>::empty() =~= w);
    }
}

proof fn lemma_bits_written(w: Seq<bool>, cap: nat, m: Seq<bool>, i: nat, w2: Seq<bool>)
    requires
        i <= m.len(),
        enc_bits(w, cap, m, i) == Ok::<Seq<bool>, CodecError>(w2),
    ensures
        w2 =~= w + m.subrange(i as int, m.len() as int),
    decreases m.len() - i,
{
    if i < m.len() {
        let w1 = w.push(m[i as int]);
        lemma_bits_written(w1, cap, m, i + 1, w2);
        assert(w1 + m.subrange((i + 1) as int, m.len() as int) =~= w + m.subrange(i as int, m.len() as int));
    }
}

proof fn lemma_masked_values_rt(
    d: Seq<u8>,
    w: Seq<bool>,
    cap: nat,
    cid: ComponentId,
    fs: Seq<FieldDef>,
    cv: Seq<FieldValue>,
    m: Seq<bool>,
    i: nat,
    acc: Seq<(usize, FieldValue)>,
    w2: Seq<bool>,
)
    requires
        i <= fs.len(),
        m.len() == fs.len(),
        enc_masked_values(w, cap, cid, fs, cv, m, i) == Ok::<Seq<bool>, CodecError>(w2),
        written_in(w2, bits_of(d)),
        w2.len() <= rcap(d),
    ensures
        dec_upd_values(d, w.len(), cid, fs, m, i, acc) == Ok::<(Seq<(usize, FieldValue)>, nat), CodecError>(
            (acc + changed(cv, m, i), w2.len()),
        ),
        written_in(w, w2),
    decreases fs.len() - i,
{
    if i < fs.len() {
        if m[i as int] {
            let w1 = enc_field(w, cap, cid, fs[i as int], cv[i as int])->Ok_0;
            let e = (i as usize, cv[i as int]);
            lemma_masked_values_rt(d, w1, cap, cid, fs, cv, m, i + 1, acc.push(e), w2);
            lemma_field_rt(d, w, cap, cid, fs[i as int], cv[i as int], w1);
            assert(acc.push(e) + changed(cv, m, i + 1) =~= acc + changed(cv, m, i));
        } else {
            lemma_masked_values_rt(d, w, cap, cid, fs, cv, m, i + 1, acc, w2);
        }
    } else {
        assert(acc + changed(cv, m, i) =~= acc);
    }
}

pub proof fn lemma_count_true_contains(m: Seq<bool>)
    ensures
        count_true(m) > 0 <==> m.contains(true),
    decreases m.len(),
{
    if m.len() > 0 {
        lemma_count_true_contains(m.drop_last());
        if m.last() {
            assert(m[m.len() - 1] == true);
        } else if m.contains(true) {
            let t = choose|t: int| 0 <= t < m.len() && m[t] == true;
            assert(m.drop_last()[t] == true);
        }
        if m.drop_last().contains(true) {
            let t = choose|t: int| 0 <= t < m.drop_last().len() && m.drop_last()[t] == true;
            assert(m[t] == true);
        }
    }
}

#[verifier::rlimit(40)]
proof fn lemma_upd_second_rt(
    d: Seq<u8>,
    w: Seq<bool>,
    cap: nat,
    comps: Seq<ComponentDef>,
    bcs: Seq<ComponentV>,
    ccs: Seq<ComponentV>,
    limits: CodecLimits,
    k: nat,
    acc: Seq<UpdCompV>,
    w2: Seq<bool>,
)
    requires
        k <= comps.len(),
        comps_ok(comps, bcs, ccs, limits, k),
        upd_second(w, cap, comps, bcs, ccs, upd_flags(comps, bcs, ccs), limits, k) == Ok::<Seq<bool>, CodecError>(w2),
        written_in(w2, bits_of(d)),
        w2.len() <= rcap(d),
    ensures
        dec_upd_comps(d, w.len(), comps, upd_flags(comps, bcs, ccs), limits, k, acc) == Ok::<(Seq<UpdCompV>, nat), CodecError>(
            (acc + comp_updates(comps, bcs, ccs, k), w2.len()),
        ),
        written_in(w, w2),
    decreases comps.len() - k,
{
    if k < comps.len() {
        let comp = comps[k as int];
        let fl = upd_flags(comps, bcs, ccs);
        match (find_comp(bcs, comp.id), find_comp(ccs, comp.id)) {
            (Some(bi), Some(ci)) => {
                let m = comp_mask(comp, bcs[bi as int].1, ccs[ci as int].1);
                assert(fl[k as int] == (count_true(m) > 0));
                if count_true(m) > 0 {
                    let n = comp.fields@.len();
                    let w1 = enc_bits(w, cap, m, 0)->Ok_0;
                    let wv = enc_masked_values(w1, cap, comp.id, comp.fields@, ccs[ci as int].1, m, 0)->Ok_0;
                    let e = (comp.id, changed(ccs[ci as int].1, m, 0));
                    lemma_upd_second_rt(d, wv, cap, comps, bcs, ccs, limits, k + 1, acc.push(e), w2);
                    super::delta_law::lemma_mask_len(comp.id, comp.fields@, bcs[bi as int].1, ccs[ci as int].1, 0);
                    lemma_masked_values_rt(d, w1, cap, comp.id, comp.fields@, ccs[ci as int].1, m, 0, Seq::empty(), wv);
                    lemma_bits_written(w, cap, m, 0, w1);
                    assert(m.subrange(0, m.len() as int) =~= m);
                    let got = bits_of(d).subrange(w.len() as int, (w.len() + n) as int);
                    assert(got =~= m) by {
                        assert forall|j: int| 0 <= j < n implies got[j] == m[j] by {
                            assert(bits_of(d)[w.len() + j] == w1[w.len() + j]);
                        }
                    }
                    lemma_count_true_contains(m);
                    assert(Seq::<(usize, FieldValue)>::empty() + changed(ccs[ci as int].1, m, 0) =~= changed(ccs[ci as int].1, m, 0));
                    assert(acc.push(e) + comp_updates(comps, bcs, ccs, k + 1) =~= acc + comp_updates(comps, bcs, ccs, k));
                } else {
                    lemma_upd_second_rt(d, w, cap, comps, bcs, ccs, limits, k + 1, acc, w2);
                }
            },
            _ => {
                assert(fl[k as int] == false);
                lemma_upd_second_rt(d, w, cap, comps, bcs, ccs, limits, k + 1, acc, w2);
            },
        }
    } else {
        assert(acc + comp_updates(comps, bcs, ccs, k) =~= acc);
    }
}

#[verifier::rlimit(40)]
proof fn lemma_masked_pairs_rt(
    d: Seq<u8>,
    w: Seq<bool>,
    cap: nat,
    comps: Seq<ComponentDef>,
    b: Seq<EntityV>,
    c: Seq<EntityV>,
    pairs: Seq<(nat, nat)>,
    limits: CodecLimits,
    k: nat,
    kk: nat,
    count: nat,
    prev: u32,
    acc: Seq<UpdEntV>,
    w2: Seq<bool>,
)
    requires
        k <= pairs.len(),
        forall|t: int, u: int| 0 <= t < u < pairs.len() ==> c[pairs[t].1 as int].0@ < c[pairs[u].1 as int].0@,
        kk > 0 ==> forall|t: int| k <= t < pairs.len() ==> prev < c[pairs[t].1 as int].0@,
        updates_from(comps, b, c, pairs, limits, k) == Ok::<nat, CodecError>((count - kk) as nat),
        kk <= count,
        enc_masked_pairs(w, cap, comps, b, c, pairs, limits, k) == Ok::<Seq<bool>, CodecError>(w2),
        written_in(w2, bits_of(d)),
        w2.len() <= rcap(d),
    ensures
        dec_upd_entities(d, w.len(), comps, limits, count, kk, prev, acc) == Ok::<(Seq<UpdEntV>, nat), CodecError>(
            (acc + entity_updates(comps, b, c, pairs.subrange(k as int, pairs.len() as int), limits), w2.len()),
        ),
        written_in(w, w2),
        w2.len() >= w.len() + 32 * (count - kk),
        super::delta_law::pairs_ok(comps, b, c, pairs.subrange(k as int, pairs.len() as int), limits),
    decreases pairs.len() - k,
{
    broadcast use super::types::lemma_entity_id_of_view;
    let ps = pairs.subrange(k as int, pairs.len() as int);
    if k < pairs.len() {
        let (x, y) = pairs[k as int];
        let be = b[x as int];
        let ce = c[y as int];
        assert(ps[0] == pairs[k as int]);
        assert(ps.drop_first() =~= pairs.subrange((k + 1) as int, pairs.len() as int));
        let hu = has_updates(comps, be, ce, limits);
        assert forall|t: int| k + 1 <= t < pairs.len() implies ce.0@ < c[pairs[t].1 as int].0@ by {}
        if hu == Ok::<bool, CodecError>(true) {
            let wa = w_align(w, cap)->Ok_0;
            let wb = w_le(wa, cap, ce.0@ as u64, 4)->Ok_0;
            let w1 = enc_update_components(wb, cap, comps, be, ce, limits)->Ok_0;
            let u = (ce.0, comp_updates(comps, be.1, ce.1, 0));
            lemma_masked_pairs_rt(d, w1, cap, comps, b, c, pairs, limits, k + 1, kk + 1, count, ce.0@, acc.push(u), w2);
            lemma_upd_first(wb, cap, comps, be.1, ce.1, limits, 0);
            let (wf, flags) = upd_first(wb, cap, comps, be.1, ce.1, limits, 0)->Ok_0;
            assert(flags =~= upd_flags(comps, be.1, ce.1));
            lemma_upd_second_rt(d, wf, cap, comps, be.1, ce.1, limits, 0, Seq::empty(), w1);
            lemma_pow256_4();
            lemma_le_rt(d, wa, cap, ce.0@ as u64, 4, wb);
            lemma_align_rt(d, w, cap, wa);
            let got = bits_of(d).subrange(wb.len() as int, (wb.len() + comps.len()) as int);
            assert(got =~= flags) by {
                assert forall|j: int| 0 <= j < comps.len() implies got[j] == flags[j] by {
                    assert(bits_of(d)[wb.len() + j] == wf[wb.len() + j]);
                }
            }
            assert(super::types::entity_id_of(ce.0@) == ce.0);
            assert(Seq::<UpdCompV>::empty() + comp_updates(comps, be.1, ce.1, 0) =~= comp_updates(comps, be.1, ce.1, 0));
            assert(acc.push(u) + entity_updates(comps, b, c, ps.drop_first(), limits) =~= acc + entity_updates(
                comps,
                b,
                c,
                ps,
                limits,
            ));
            assert forall|t: int| 0 <= t < ps.len() implies {
                let (x2, y2) = #[trigger] ps[t];
                &&& has_updates(comps, b[x2 as int], c[y2 as int], limits) is Ok
                &&& has_updates(comps, b[x2 as int], c[y2 as int], limits) == Ok::<bool, CodecError>(true) ==> comps_ok(
                    comps,
                    b[x2 as int].1,
                    c[y2 as int].1,
                    limits,
                    0,
                )
            } by {
                if t > 0 {
                    assert(ps[t] == ps.drop_first()[t - 1]);
                }
            }
        } else {
            lemma_masked_pairs_rt(d, w, cap, comps, b, c, pairs, limits, k + 1, kk, count, prev, acc, w2);
            assert forall|t: int| 0 <= t < ps.len() implies {
                let (x2, y2) = #[trigger] ps[t];
                &&& has_updates(comps, b[x2 as int], c[y2 as int], limits) is Ok
                &&& has_updates(comps, b[x2 as int], c[y2 as int], limits) == Ok::<bool, CodecError>(true) ==> comps_ok(
                    comps,
                    b[x2 as int].1,
                    c[y2 as int].1,
                    limits,
                    0,
                )
            } by {
                if t > 0 {
                    assert(ps[t] == ps.drop_first()[t - 1]);
                }
            }
        }
    } else {
        assert(acc + entity_updates(comps, b, c, ps, limits) =~= acc);
    }
}

/// Decoding a masked update section body that was encoded gives the delta's
/// entity updates.
pub proof fn lemma_masked_body_rt(
    d: Seq<u8>,
    cap: nat,
    comps: Seq<ComponentDef>,
    b: Seq<EntityV>,
    c: Seq<EntityV>,
    pairs: Seq<(nat, nat)>,
    count: nat,
    limits: CodecLimits,
    w: Seq<bool>,
)
    requires
        forall|t: int, u: int| 0 <= t < u < pairs.len() ==> c[pairs[t].1 as int].0@ < c[pairs[u].1 as int].0@,
        updates_from(comps, b, c, pairs, limits, 0) == Ok::<nat, CodecError>(count),
        enc_masked_body(Seq::empty(), cap, comps, b, c, pairs, count, limits) == Ok::<Seq<bool>, CodecError>(w),
        bits_of(d) == w,
        cap <= usize::MAX,
        d.len() <= limits.max_section_bytes,
        d.len() <= u32::MAX,
    ensures
        dec_masked_section(d, comps, limits) == Ok::<Seq<UpdEntV>, CodecError>(entity_updates(comps, b, c, pairs, limits)),
        super::delta_law::pairs_ok(comps, b, c, pairs, limits),
{
    lemma_bits_of_len(d);
    let w0 = Seq::<bool>::empty();
    let w1 = w_align(w0, cap)->Ok_0;
    assert(w1 =~= w0);
    let w2 = w_varu32(w1, cap, count as u32)->Ok_0;
    let w3 = enc_masked_pairs(w2, cap, comps, b, c, pairs, limits, 0)->Ok_0;
    assert(w_align(w3, cap) == Ok::<Seq<bool>, BitError>(w));
    assert(rcap(d) == w.len());
    assert(written_in(w3, bits_of(d))) by {
        assert(w == padded(w3));
    }
    lemma_masked_pairs_rt(d, w2, cap, comps, b, c, pairs, limits, 0, 0, count, 0, Seq::empty(), w3);
    lemma_varu32_rt(d, w1, cap, count as u32, w2);
    lemma_align_rt(d, w3, cap, w);
    assert(count <= u32::MAX);
    assert(pairs.subrange(0, pairs.len() as int) =~= pairs);
    assert(Seq::<UpdEntV>::empty() + entity_updates(comps, b, c, pairs, limits) =~= entity_updates(comps, b, c, pairs, limits));
}

} // verus!
