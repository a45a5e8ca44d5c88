//! Reading back sparse update section bodies: the decoder, run on the body
//! the sparse encoder wrote, gives back the delta's entity updates.
use super::delta_dec::{
    add_entry, dec_count, dec_entry, dec_entry_ids, dec_index, dec_sparse_entries, dec_sparse_fields,
    dec_sparse_section, entry_order_error, finish_section, schema_find, size_error, sparse_tag, UpdCompV,
    UpdEntV,
};
use super::delta_law::{changed, comp_mask, comp_updates, comps_ok, entity_updates, lemma_mask_len};
use super::delta_sparse::{
    enc_entry_head, enc_sparse_body, enc_sparse_comps, enc_sparse_fields, enc_sparse_pairs, entry_comps,
    sparse_entries,
};
use super::diff::{
    any_change_from, comps_changed_from, count_true, has_updates, index_bits_spec, mask_from, pair_check,
    presence_error, sat_mul, updates_from,
};
use super::error::CodecError;
use super::limits::CodecLimits;
use super::model::{
    enc_field, lift, r_align, r_bits, r_le, r_varu32, rcap, required_bits_spec, w_align, w_bits, w_le, w_varu32,
    FieldValue,
};
use super::roundtrip::{lemma_align_rt, lemma_bits_rt, lemma_field_rt, lemma_le_rt, lemma_varu32_rt, written_in};
use super::snapshot::{find_comp, ComponentV, EntityV};
use super::types::entity_id_of;
use crate::bitstream::bits::{bits_of, lemma_bits_of_len, lemma_varu32_len, padded, varu32_bytes};
use crate::bitstream::BitError;
use crate::schema::{ComponentDef, FieldDef};
use vstd::prelude::*;

verus! {

/// Schema components in strictly increasing id order, none with id zero.
pub open spec fn ids_ascending(comps: Seq<ComponentDef>) -> bool {
    &&& forall|t: int, u: int| 0 <= t < u < comps.len() ==> #[trigger] comps[t].id@ < #[trigger] comps[u].id@
    &&& forall|t: int| 0 <= t < comps.len() ==> #[trigger] comps[t].id@ != 0
}

pub proof fn lemma_count_true_cons(x: bool, s: Seq<bool>)
    ensures
        count_true(seq![x] + s) == count_true(s) + (if x {
            1nat
        } else {
            0nat
        }),
    decreases s.len(),
{
    let t = seq![x] + s;
    if s.len() == 0 {
        assert(t.drop_last() =~= Seq::<bool>::empty());
        assert(t.last() == x);
        assert(count_true(Seq::<bool>::empty()) == 0);
        assert(count_true(t) == count_true(t.drop_last()) + (if t.last() { 1nat } else { 0nat }));
    } else {
        assert(t.drop_last() =~= seq![x] + s.drop_last());
        assert(t.last() == s.last());
        lemma_count_true_cons(x, s.drop_last());
    }
}

proof fn lemma_count_true_le(s: Seq<bool>)
    ensures
        count_true(s) <= s.len(),
    decreases s.len(),
{
    if s.len() > 0 {
        lemma_count_true_le(s.drop_last());
    }
}

/// Set bits of `m` from `i` on.
proof fn lemma_count_suffix(m: Seq<bool>, i: nat)
    requires
        i < m.len(),
    ensures
        count_true(m.subrange(i as int, m.len() as int)) == count_true(m.subrange((i + 1) as int, m.len() as int)) + (if m[i as int] {
            1nat
        } else {
            0nat
        }),
{
    assert(m.subrange(i as int, m.len() as int) =~= seq![m[i as int]] + m.subrange((i + 1) as int, m.len() as int));
    lemma_count_true_cons(m[i as int], m.subrange((i + 1) as int, m.len() as int));
}

/// No index bits means a component of at most one field.
proof fn lemma_index_bits(n: nat)
    requires
        1 <= n <= usize::MAX,
    ensures
        index_bits_spec(n as usize) as nat == required_bits_spec((n - 1) as nat),
        index_bits_spec(n as usize) == 0 ==> n == 1,
        index_bits_spec(n as usize) <= 64,
{
    super::model::lemma_required_bits((n - 1) as nat);
    assert((n as usize).saturating_sub(1) == n - 1);
}

/// Writing a field index of a sparse entry.
pub open spec fn enc_index(w: Seq<bool>, cap: nat, i: nat, ib: u8, packed: bool) -> Result<Seq<bool>, CodecError> {
    if packed {
        if ib > 0 {
            lift(w_bits(w, cap, i as u64, ib))
        } else {
            Ok(w)
        }
    } else {
        match w_align(w, cap) {
            Err(e) => Err(CodecError::Bitstream(e)),
            Ok(w1) => lift(w_varu32(w1, cap, i as u32)),
        }
    }
}

/// Reading back a field index.
proof fn lemma_index_rt(d: Seq<u8>, w: Seq<bool>, cap: nat, i: nat, n: nat, packed: bool, w2: Seq<bool>)
    requires
        i < n <= u32::MAX,
        enc_index(w, cap, i, index_bits_spec(n as usize), packed) == Ok::<Seq<bool>, CodecError>(w2),
        written_in(w2, bits_of(d)),
        w2.len() <= rcap(d),
    ensures
        dec_index(d, w.len(), index_bits_spec(n as usize), packed) == Ok::<(usize, nat), CodecError>((i as usize, w2.len())),
        written_in(w, w2),
{
    let ib = index_bits_spec(n as usize);
    lemma_index_bits(n);
    if packed {
        if ib > 0 {
            lemma_bits_rt(d, w, cap, i as u64, ib, w2);
        } else {
            assert(i == 0);
        }
    } else {
        let wa = w_align(w, cap)->Ok_0;
        lemma_varu32_rt(d, wa, cap, i as u32, w2);
        lemma_align_rt(d, w, cap, wa);
    }
}

/// Reading back the changed fields of a sparse entry.
#[verifier::rlimit(40)]
proof fn lemma_sparse_fields_rt(
    d: Seq<u8>,
    w: Seq<bool>,
    cap: nat,
    c: ComponentDef,
    cv: Seq<FieldValue>,
    m: Seq<bool>,
    packed: bool,
    i: nat,
    j: nat,
    count: nat,
    prev: Option<usize>,
    acc: Seq<(usize, FieldValue)>,
    w2: Seq<bool>,
)
    requires
        i <= c.fields@.len(),
        m.len() == c.fields@.len(),
        c.fields@.len() <= u32::MAX,
        j + count_true(m.subrange(i as int, m.len() as int)) == count,
        prev matches Some(pi) ==> pi < i,
        enc_sparse_fields(w, cap, c.id, c.fields@, cv, m, index_bits_spec(c.fields@.len() as usize), packed, i) == Ok::<
            Seq<bool>,
            CodecError,
        >(w2),
        written_in(w2, bits_of(d)),
        w2.len() <= rcap(d),
    ensures
        dec_sparse_fields(d, w.len(), c, count, index_bits_spec(c.fields@.len() as usize), packed, j, prev, acc) == Ok::<
            (Seq<(usize, FieldValue)>, nat),
            CodecError,
        >((acc + changed(cv, m, i), w2.len())),
        written_in(w, w2),
    decreases c.fields@.len() - i,
{
    let fs = c.fields@;
    let n = fs.len();
    let ib = index_bits_spec(n as usize);
    if i < n {
        lemma_count_suffix(m, i);
        if !m[i as int] {
            lemma_sparse_fields_rt(d, w, cap, c, cv, m, packed, i + 1, j, count, prev, acc, w2);
        } else {
            let widx = enc_index(w, cap, i, ib, packed)->Ok_0;
            let w3 = enc_field(widx, cap, c.id, fs[i as int], cv[i as int])->Ok_0;
            let e = (i as usize, cv[i as int]);
            lemma_sparse_fields_rt(d, w3, cap, c, cv, m, packed, i + 1, j + 1, count, Some(i as usize), acc.push(e), w2);
            lemma_field_rt(d, widx, cap, c.id, fs[i as int], cv[i as int], w3);
            lemma_index_rt(d, w, cap, i, n, packed, widx);
            assert(acc.push(e) + changed(cv, m, i + 1) =~= acc + changed(cv, m, i));
        }
    } else {
        assert(m.subrange(i as int, m.len() as int) =~= Seq::<bool>::empty());
        assert(acc + changed(cv, m, i) =~= acc);
    }
}

proof fn lemma_pow256()
    ensures
        vstd::arithmetic::power::pow(256, 4) == 0x1_0000_0000,
        vstd::arithmetic::power::pow(256, 2) == 0x1_0000,
{
    reveal_with_fuel(vstd::arithmetic::power::pow, 5);
}

/// Reading back the head of a sparse entry: the entity and component ids,
/// then the changed field count, which starts at the returned position.
proof fn lemma_entry_head_rt(d: Seq<u8>, w: Seq<bool>, cap: nat, eid: u32, cid: u16, n: nat, packed: bool, w1: Seq<bool>) -> (p3:
    nat)
    requires
        n <= u32::MAX,
        enc_entry_head(w, cap, eid, cid, n, packed) == Ok::<Seq<bool>, CodecError>(w1),
        written_in(w1, bits_of(d)),
        w1.len() <= rcap(d),
    ensures
        dec_entry_ids(d, w.len(), packed) == Ok::<(u32, u16, nat), CodecError>((eid, cid, p3)),
        r_varu32(d, p3) == Ok::<(u32, nat), BitError>((n as u32, w1.len())),
        written_in(w, w1),
        w1.len() >= w.len() + 24,
{
    let wa = w_align(w, cap)->Ok_0;
    lemma_varu32_len(n as u32);
    if packed {
        let w2 = w_varu32(wa, cap, eid)->Ok_0;
        let w3 = w_varu32(w2, cap, cid as u32)->Ok_0;
        lemma_varu32_rt(d, w3, cap, n as u32, w1);
        lemma_varu32_rt(d, w2, cap, cid as u32, w3);
        lemma_varu32_rt(d, wa, cap, eid, w2);
        lemma_varu32_len(eid);
        lemma_varu32_len(cid as u32);
        lemma_align_rt(d, w, cap, wa);
        w3.len()
    } else {
        let w2 = w_le(wa, cap, eid as u64, 4)->Ok_0;
        let w3 = w_le(w2, cap, cid as u64, 2)->Ok_0;
        lemma_varu32_rt(d, w3, cap, n as u32, w1);
        lemma_pow256();
        lemma_le_rt(d, w2, cap, cid as u64, 2, w3);
        lemma_le_rt(d, wa, cap, eid as u64, 4, w2);
        lemma_align_rt(d, w, cap, wa);
        w3.len()
    }
}

/// With ascending ids, looking a component's id up finds that component.
proof fn lemma_schema_find(comps: Seq<ComponentDef>, k: nat, t: nat)
    requires
        ids_ascending(comps),
        t <= k < comps.len(),
    ensures
        schema_find(comps, comps[k as int].id@, t) == Some(k),
    decreases k - t,
{
    if t < k {
        assert(comps[t as int].id@ < comps[k as int].id@);
        lemma_schema_find(comps, k, t + 1);
    }
}

/// The raw id of the last schema component from `k` on with a changed
/// field, or `pc` when there is none.
pub open spec fn last_changed(comps: Seq<ComponentDef>, bcs: Seq<ComponentV>, ccs: Seq<ComponentV>, k: nat, pc: Option<u16>) -> Option<
    u16,
>
    decreases comps.len() - k,
{
    if k >= comps.len() {
        pc
    } else {
        match (find_comp(bcs, comps[k as int].id), find_comp(ccs, comps[k as int].id)) {
            (Some(bi), Some(ci)) => if count_true(comp_mask(comps[k as int], bcs[bi as int].1, ccs[ci as int].1)) > 0 {
                last_changed(comps, bcs, ccs, k + 1, Some(comps[k as int].id@))
            } else {
                last_changed(comps, bcs, ccs, k + 1, pc)
            },
            _ => last_changed(comps, bcs, ccs, k + 1, pc),
        }
    }
}

/// The updates read so far while reading an entity's entries: `base`,
/// plus the entity with the entries `done` once there is one.
pub open spec fn with_entity(base: Seq<UpdEntV>, eid: u32, done: Seq<UpdCompV>) -> Seq<UpdEntV> {
    if done.len() == 0 {
        base
    } else {
        base.push((entity_id_of(eid), done))
    }
}

/// The entity id last read while reading an entity's entries.
pub open spec fn entity_prev(pe: Option<u32>, eid: u32, done: Seq<UpdCompV>) -> Option<u32> {
    if done.len() == 0 {
        pe
    } else {
        Some(eid)
    }
}

/// Writing one sparse entry: its head, then its changed fields.
pub open spec fn enc_entry(w: Seq<bool>, cap: nat, eid: u32, comp: ComponentDef, cv: Seq<FieldValue>, m: Seq<bool>, packed: bool) -> Result<
    Seq<bool>,
    CodecError,
> {
    match enc_entry_head(w, cap, eid, comp.id@, count_true(m), packed) {
        Err(e) => Err(e),
        Ok(w1) => enc_sparse_fields(w1, cap, comp.id, comp.fields@, cv, m, index_bits_spec(comp.fields@.len() as usize), packed, 0),
    }
}

/// Reading back one sparse entry.
#[verifier::rlimit(30)]
proof fn lemma_entry_rt(
    d: Seq<u8>,
    w: Seq<bool>,
    cap: nat,
    comps: Seq<ComponentDef>,
    k: nat,
    eid: u32,
    bv: Seq<FieldValue>,
    cv: Seq<FieldValue>,
    limits: CodecLimits,
    packed: bool,
    pe: Option<u32>,
    pc: Option<u16>,
    wf: Seq<bool>,
)
    requires
        k < comps.len(),
        ids_ascending(comps),
        limits.max_fields_per_component <= u32::MAX,
        pair_check(comps[k as int], bv, cv, limits) is None,
        mask_from(comps[k as int].id, comps[k as int].fields@, bv, cv, 0) is Ok,
        count_true(comp_mask(comps[k as int], bv, cv)) > 0,
        entry_order_error(pe, pc, eid, comps[k as int].id@) is None,
        enc_entry(w, cap, eid, comps[k as int], cv, comp_mask(comps[k as int], bv, cv), packed) == Ok::<Seq<bool>, CodecError>(wf),
        written_in(wf, bits_of(d)),
        wf.len() <= rcap(d),
    ensures
        dec_entry(d, w.len(), comps, limits, packed, pe, pc) == Ok::<(u32, u16, nat, Seq<(usize, FieldValue)>, nat), CodecError>(
            (eid, comps[k as int].id@, k, changed(cv, comp_mask(comps[k as int], bv, cv), 0), wf.len()),
        ),
        written_in(w, wf),
        wf.len() >= w.len() + 24,
{
    let comp = comps[k as int];
    let m = comp_mask(comp, bv, cv);
    lemma_mask_len(comp.id, comp.fields@, bv, cv, 0);
    let nch = count_true(m);
    let w1 = enc_entry_head(w, cap, eid, comp.id@, nch, packed)->Ok_0;
    lemma_count_true_le(m);
    assert(m.subrange(0, m.len() as int) =~= m);
    lemma_sparse_fields_rt(d, w1, cap, comp, cv, m, packed, 0, 0, nch, None, Seq::empty(), wf);
    let p3 = lemma_entry_head_rt(d, w, cap, eid, comp.id@, nch, packed, w1);
    lemma_schema_find(comps, k, 0);
    assert(Seq::<(usize, FieldValue)>::empty() + changed(cv, m, 0) =~= changed(cv, m, 0));
}

/// One entry step of reading a sparse section.
proof fn lemma_entries_step(
    d: Seq<u8>,
    p: nat,
    comps: Seq<ComponentDef>,
    limits: CodecLimits,
    packed: bool,
    count: nat,
    ke: nat,
    pe: Option<u32>,
    pc: Option<u16>,
    acc: Seq<UpdEntV>,
    eid: u32,
    raw: u16,
    ci: nat,
    fs: Seq<(usize, FieldValue)>,
    p1: nat,
)
    requires
        ke < count,
        dec_entry(d, p, comps, limits, packed, pe, pc) == Ok::<(u32, u16, nat, Seq<(usize, FieldValue)>, nat), CodecError>(
            (eid, raw, ci, fs, p1),
        ),
    ensures
        dec_sparse_entries(d, p, comps, limits, packed, count, ke, pe, pc, acc) == dec_sparse_entries(
            d,
            p1,
            comps,
            limits,
            packed,
            count,
            ke + 1,
            Some(eid),
            Some(raw),
            add_entry(acc, eid, (comps[ci as int].id, fs)),
        ),
{
    reveal(dec_sparse_entries);
}

proof fn lemma_add_entry(base: Seq<UpdEntV>, eid: u32, done: Seq<UpdCompV>, x: UpdCompV)
    requires
        done.len() == 0 ==> (base.len() > 0 ==> base.last().0@ < eid),
    ensures
        add_entry(with_entity(base, eid, done), eid, x) == with_entity(base, eid, done.push(x)),
{
    broadcast use super::types::lemma_entity_id_of_view, super::types::lemma_entity_id_of;
    let acc = with_entity(base, eid, done);
    if done.len() == 0 {
        assert(done.push(x) =~= seq![x]);
    } else {
        assert(acc.last().0@ == eid);
        assert(acc.update(acc.len() - 1, (acc.last().0, acc.last().1.push(x))) =~= base.push((entity_id_of(eid), done.push(x))));
    }
}

/// Reading back one entry of an updated entity.
#[verifier::rlimit(40)]
proof fn lemma_comp_entry(
    d: Seq<u8>,
    w: Seq<bool>,
    cap: nat,
    comps: Seq<ComponentDef>,
    k: nat,
    eid: u32,
    bv: Seq<FieldValue>,
    cv: Seq<FieldValue>,
    limits: CodecLimits,
    packed: bool,
    count: nat,
    ke: nat,
    pe: Option<u32>,
    pc: Option<u16>,
    base: Seq<UpdEntV>,
    done: Seq<UpdCompV>,
    wf: Seq<bool>,
)
    requires
        k < comps.len(),
        ids_ascending(comps),
        limits.max_fields_per_component <= u32::MAX,
        pair_check(comps[k as int], bv, cv, limits) is None,
        mask_from(comps[k as int].id, comps[k as int].fields@, bv, cv, 0) is Ok,
        count_true(comp_mask(comps[k as int], bv, cv)) > 0,
        enc_entry(w, cap, eid, comps[k as int], cv, comp_mask(comps[k as int], bv, cv), packed) == Ok::<Seq<bool>, CodecError>(wf),
        written_in(wf, bits_of(d)),
        wf.len() <= rcap(d),
        ke < count,
        done.len() == 0 ==> (pe matches Some(x) ==> x < eid) && (base.len() > 0 ==> base.last().0@ < eid),
        done.len() > 0 ==> pe == Some(eid) && (pc matches Some(y) && y < comps[k as int].id@),
    ensures
        dec_sparse_entries(d, w.len(), comps, limits, packed, count, ke, pe, pc, with_entity(base, eid, done)) == dec_sparse_entries(
            d,
            wf.len(),
            comps,
            limits,
            packed,
            count,
            ke + 1,
            Some(eid),
            Some(comps[k as int].id@),
            with_entity(base, eid, done.push((comps[k as int].id, changed(cv, comp_mask(comps[k as int], bv, cv), 0)))),
        ),
        written_in(w, wf),
        wf.len() >= w.len() + 24,
{
    broadcast use super::types::lemma_entity_id_of_view, super::types::lemma_entity_id_of;
    let comp = comps[k as int];
    let m = comp_mask(comp, bv, cv);
    let x = (comp.id, changed(cv, m, 0));
    assert(entry_order_error(pe, pc, eid, comp.id@) is None);
    lemma_entry_rt(d, w, cap, comps, k, eid, bv, cv, limits, packed, pe, pc, wf);
    let acc = with_entity(base, eid, done);
    lemma_entries_step(d, w.len(), comps, limits, packed, count, ke, pe, pc, acc, eid, comp.id@, k, changed(cv, m, 0), wf.len());
    lemma_add_entry(base, eid, done, x);
}

/// Reading back the entries of one updated entity, schema components from
/// `k` on. `done` holds the entity's entries read before `k`.
#[verifier::rlimit(40)]
proof fn lemma_sparse_comps_rt(
    d: Seq<u8>,
    w: Seq<bool>,
    cap: nat,
    comps: Seq<ComponentDef>,
    eid: u32,
    bcs: Seq<ComponentV>,
    ccs: Seq<ComponentV>,
    limits: CodecLimits,
    packed: bool,
    k: nat,
    count: nat,
    ke: nat,
    pe: Option<u32>,
    pc: Option<u16>,
    base: Seq<UpdEntV>,
    done: Seq<UpdCompV>,
    w2: Seq<bool>,
)
    requires
        k <= comps.len(),
        ids_ascending(comps),
        limits.max_fields_per_component <= u32::MAX,
        enc_sparse_comps(w, cap, comps, eid, bcs, ccs, limits, packed, k) == Ok::<Seq<bool>, CodecError>(w2),
        written_in(w2, bits_of(d)),
        w2.len() <= rcap(d),
        ke + comp_updates(comps, bcs, ccs, k).len() <= count,
        done.len() == 0 ==> (pe matches Some(x) ==> x < eid) && (base.len() > 0 ==> base.last().0@ < eid),
        done.len() > 0 ==> pe == Some(eid) && (pc matches Some(y) && forall|t: int| k <= t < comps.len() ==> y < #[trigger] comps[t].id@),
    ensures
        dec_sparse_entries(d, w.len(), comps, limits, packed, count, ke, pe, pc, with_entity(base, eid, done)) == dec_sparse_entries(
            d,
            w2.len(),
            comps,
            limits,
            packed,
            count,
            ke + comp_updates(comps, bcs, ccs, k).len(),
            entity_prev(pe, eid, done + comp_updates(comps, bcs, ccs, k)),
            last_changed(comps, bcs, ccs, k, pc),
            with_entity(base, eid, done + comp_updates(comps, bcs, ccs, k)),
        ),
        written_in(w, w2),
        w2.len() >= w.len() + 24 * comp_updates(comps, bcs, ccs, k).len(),
        comps_ok(comps, bcs, ccs, limits, k),
    decreases comps.len() - k,
{
    broadcast use super::types::lemma_entity_id_of_view, super::types::lemma_entity_id_of;
    if k < comps.len() {
        let comp = comps[k as int];
        match (find_comp(bcs, comp.id), find_comp(ccs, comp.id)) {
            (Some(bi), Some(ci)) => {
                let bv = bcs[bi as int].1;
                let cv = ccs[ci as int].1;
                let m = comp_mask(comp, bv, cv);
                if count_true(m) > 0 {
                    let wf = enc_entry(w, cap, eid, comp, cv, m, packed)->Ok_0;
                    let x = (comp.id, changed(cv, m, 0));
                    let done2 = done.push(x);
                    assert forall|t: int| k + 1 <= t < comps.len() implies comp.id@ < #[trigger] comps[t].id@ by {}
                    lemma_sparse_comps_rt(
                        d,
                        wf,
                        cap,
                        comps,
                        eid,
                        bcs,
                        ccs,
                        limits,
                        packed,
                        k + 1,
                        count,
                        ke + 1,
                        Some(eid),
                        Some(comp.id@),
                        base,
                        done2,
                        w2,
                    );
                    lemma_comp_entry(d, w, cap, comps, k, eid, bv, cv, limits, packed, count, ke, pe, pc, base, done, wf);
                    assert(done2 + comp_updates(comps, bcs, ccs, k + 1) =~= done + comp_updates(comps, bcs, ccs, k));
                } else {
                    lemma_sparse_comps_rt(d, w, cap, comps, eid, bcs, ccs, limits, packed, k + 1, count, ke, pe, pc, base, done, w2);
                }
            },
            (None, None) => {
                lemma_sparse_comps_rt(d, w, cap, comps, eid, bcs, ccs, limits, packed, k + 1, count, ke, pe, pc, base, done, w2);
            },
            _ => {},
        }
    } else {
        assert(done + comp_updates(comps, bcs, ccs, k) =~= done);
    }
}

/// A field that changes sets a bit of the change mask.
proof fn lemma_any_change_mask(
    cid: crate::schema::ComponentId,
    fs: Seq<FieldDef>,
    bv: Seq<FieldValue>,
    cv: Seq<FieldValue>,
    k: nat,
)
    requires
        any_change_from(cid, fs, bv, cv, k) == Ok::<bool, CodecError>(true),
        mask_from(cid, fs, bv, cv, k) is Ok,
    ensures
        mask_from(cid, fs, bv, cv, k)->Ok_0.contains(true),
    decreases fs.len() - k,
{
    if k < fs.len() {
        let m = mask_from(cid, fs, bv, cv, k)->Ok_0;
        match super::diff::field_change(cid, fs[k as int], bv[k as int], cv[k as int]) {
            Ok(true) => {
                assert(m[0] == true);
            },
            Ok(false) => {
                lemma_any_change_mask(cid, fs, bv, cv, k + 1);
                let rest = mask_from(cid, fs, bv, cv, k + 1)->Ok_0;
                let t = choose|t: int| 0 <= t < rest.len() && rest[t] == true;
                assert(m[t + 1] == true);
            },
            Err(_) => {},
        }
    }
}

proof fn lemma_changed_comps(comps: Seq<ComponentDef>, bcs: Seq<ComponentV>, ccs: Seq<ComponentV>, limits: CodecLimits, k: nat)
    requires
        comps_changed_from(comps, bcs, ccs, limits, k) == Ok::<bool, CodecError>(true),
        comps_ok(comps, bcs, ccs, limits, k),
    ensures
        comp_updates(comps, bcs, ccs, k).len() > 0,
    decreases comps.len() - k,
{
    if k < comps.len() {
        let comp = comps[k as int];
        match (find_comp(bcs, comp.id), find_comp(ccs, comp.id)) {
            (Some(bi), Some(ci)) => {
                let bv = bcs[bi as int].1;
                let cv = ccs[ci as int].1;
                if any_change_from(comp.id, comp.fields@, bv, cv, 0) == Ok::<bool, CodecError>(true) {
                    lemma_any_change_mask(comp.id, comp.fields@, bv, cv, 0);
                    super::delta_wire::lemma_count_true_contains(comp_mask(comp, bv, cv));
                } else {
                    lemma_changed_comps(comps, bcs, ccs, limits, k + 1);
                }
            },
            _ => {
                lemma_changed_comps(comps, bcs, ccs, limits, k + 1);
            },
        }
    }
}

/// An entity with a change has an entry for some component.
proof fn lemma_updates_nonempty(comps: Seq<ComponentDef>, be: EntityV, ce: EntityV, limits: CodecLimits)
    requires
        has_updates(comps, be, ce, limits) == Ok::<bool, CodecError>(true),
        comps_ok(comps, be.1, ce.1, limits, 0),
    ensures
        comp_updates(comps, be.1, ce.1, 0).len() > 0,
{
    lemma_changed_comps(comps, be.1, ce.1, limits, 0);
}

/// The number of component entries of entity updates.
pub open spec fn entry_total(us: Seq<UpdEntV>) -> nat
    decreases us.len(),
{
    if us.len() == 0 {
        0
    } else {
        us[0].1.len() + entry_total(us.drop_first())
    }
}

/// Reading back the entries of the matched pairs from `k` on.
#[verifier::rlimit(40)]
proof fn lemma_sparse_pairs_rt(
    d: Seq<u8>,
    w: Seq<bool>,
    cap: nat,
    comps: Seq<ComponentDef>,
    b: Seq<EntityV>,
    c: Seq<EntityV>,
    pairs: Seq<(nat, nat)>,
    limits: CodecLimits,
    packed: bool,
    k: nat,
    count: nat,
    ke: nat,
    pe: Option<u32>,
    pc: Option<u16>,
    acc: Seq<UpdEntV>,
    w2: Seq<bool>,
)
    requires
        k <= pairs.len(),
        ids_ascending(comps),
        limits.max_fields_per_component <= u32::MAX,
        forall|t: int, u: int| 0 <= t < u < pairs.len() ==> c[pairs[t].1 as int].0@ < c[pairs[u].1 as int].0@,
        (pe is None && acc.len() == 0) || (pe matches Some(x) && acc.len() > 0 && acc.last().0@ == x && forall|t: int|
            k <= t < pairs.len() ==> x < #[trigger] c[pairs[t].1 as int].0@),
        enc_sparse_pairs(w, cap, comps, b, c, pairs, limits, packed, k) == Ok::<Seq<bool>, CodecError>(w2),
        written_in(w2, bits_of(d)),
        w2.len() <= rcap(d),
        ke + entry_total(entity_updates(comps, b, c, pairs.subrange(k as int, pairs.len() as int), limits)) == count,
    ensures
        dec_sparse_entries(d, w.len(), comps, limits, packed, count, ke, pe, pc, acc) == Ok::<(Seq<UpdEntV>, nat), CodecError>(
            (acc + entity_updates(comps, b, c, pairs.subrange(k as int, pairs.len() as int), limits), w2.len()),
        ),
        written_in(w, w2),
        w2.len() >= w.len() + 24 * entry_total(entity_updates(comps, b, c, pairs.subrange(k as int, pairs.len() as int), limits)),
        super::delta_law::pairs_ok(comps, b, c, pairs.subrange(k as int, pairs.len() as int), limits),
    decreases pairs.len() - k,
{
    broadcast use super::types::lemma_entity_id_of_view, super::types::lemma_entity_id_of;
    let ps = pairs.subrange(k as int, pairs.len() as int);
    if k < pairs.len() {
        let (x, y) = pairs[k as int];
        let be = b[x as int];
        let ce = c[y as int];
        let rest = pairs.subrange((k + 1) as int, pairs.len() as int);
        assert(ps[0] == pairs[k as int]);
        assert(ps.drop_first() =~= rest);
        let eu = entity_updates(comps, b, c, rest, limits);
        assert forall|t: int| k + 1 <= t < pairs.len() implies ce.0@ < #[trigger] c[pairs[t].1 as int].0@ by {}
        if has_updates(comps, be, ce, limits) == Ok::<bool, CodecError>(true) {
            let eid = ce.0@;
            let w1 = enc_sparse_comps(w, cap, comps, eid, be.1, ce.1, limits, packed, 0)->Ok_0;
            let cu = comp_updates(comps, be.1, ce.1, 0);
            assert(entity_updates(comps, b, c, ps, limits) == seq![(ce.0, cu)] + eu);
            assert(entry_total(seq![(ce.0, cu)] + eu) == cu.len() + entry_total(eu)) by {
                assert((seq![(ce.0, cu)] + eu).drop_first() =~= eu);
            }
            let acc2 = acc.push((entity_id_of(eid), cu));
            lemma_sparse_pairs_rt(
                d,
                w1,
                cap,
                comps,
                b,
                c,
                pairs,
                limits,
                packed,
                k + 1,
                count,
                ke + cu.len(),
                Some(eid),
                last_changed(comps, be.1, ce.1, 0, pc),
                acc2,
                w2,
            );
            lemma_sparse_comps_rt(d, w, cap, comps, eid, be.1, ce.1, limits, packed, 0, count, ke, pe, pc, acc, Seq::empty(), w1);
            lemma_updates_nonempty(comps, be, ce, limits);
            assert(Seq::<UpdCompV>::empty() + cu =~= cu);
            assert(entity_id_of(eid) == ce.0);
            assert(acc2 + eu =~= acc + entity_updates(comps, b, c, ps, limits));
            assert forall|t: int| 0 <= t < ps.len() implies {
                let (x2, y2) = #[trigger] ps[t];
                &&& has_updates(comps, b[x2 as int], c[y2 as int], limits) is Ok
                &&& has_updates(comps, b[x2 as int], c[y2 as int], limits) == Ok::<bool, CodecError>(true) ==> comps_ok(
                    comps,
                    b[x2 as int].1,
                    c[y2 as int].1,
                    limits,
                    0,
                )
            } by {
                if t > 0 {
                    assert(ps[t] == rest[t - 1]);
                }
            }
        } else {
            assert(entity_updates(comps, b, c, ps, limits) == eu);
            lemma_sparse_pairs_rt(d, w, cap, comps, b, c, pairs, limits, packed, k + 1, count, ke, pe, pc, acc, w2);
            assert forall|t: int| 0 <= t < ps.len() implies {
                let (x2, y2) = #[trigger] ps[t];
                &&& has_updates(comps, b[x2 as int], c[y2 as int], limits) is Ok
                &&& has_updates(comps, b[x2 as int], c[y2 as int], limits) == Ok::<bool, CodecError>(true) ==> comps_ok(
                    comps,
                    b[x2 as int].1,
                    c[y2 as int].1,
                    limits,
                    0,
                )
            } by {
                if t > 0 {
                    assert(ps[t] == rest[t - 1]);
                }
            }
        }
    } else {
        reveal(dec_sparse_entries);
        assert(ps =~= Seq::<(nat, nat)>::empty());
        assert(acc + entity_updates(comps, b, c, ps, limits) =~= acc);
    }
}

/// `x`, or the largest `usize` when it does not fit.
pub open spec fn sat(x: int) -> usize {
    if x > usize::MAX {
        usize::MAX
    } else {
        x as usize
    }
}

proof fn lemma_entry_comps_count(comps: Seq<ComponentDef>, bcs: Seq<ComponentV>, ccs: Seq<ComponentV>, limits: CodecLimits, k: nat, cnt: usize)
    requires
        k <= comps.len(),
        comps_ok(comps, bcs, ccs, limits, k),
    ensures
        entry_comps(comps, bcs, ccs, limits, k, cnt) == Ok::<usize, CodecError>(sat(cnt + comp_updates(comps, bcs, ccs, k).len())),
    decreases comps.len() - k,
{
    if k < comps.len() {
        let comp = comps[k as int];
        match (find_comp(bcs, comp.id), find_comp(ccs, comp.id)) {
            (Some(bi), Some(ci)) => {
                let m = comp_mask(comp, bcs[bi as int].1, ccs[ci as int].1);
                if count_true(m) > 0 {
                    lemma_entry_comps_count(comps, bcs, ccs, limits, k + 1, cnt.saturating_add(1));
                } else {
                    lemma_entry_comps_count(comps, bcs, ccs, limits, k + 1, cnt);
                }
            },
            _ => {
                lemma_entry_comps_count(comps, bcs, ccs, limits, k + 1, cnt);
            },
        }
    }
}

proof fn lemma_sparse_entries_count(
    comps: Seq<ComponentDef>,
    b: Seq<EntityV>,
    c: Seq<EntityV>,
    pairs: Seq<(nat, nat)>,
    limits: CodecLimits,
    k: nat,
    cnt: usize,
)
    requires
        k <= pairs.len(),
        super::delta_law::pairs_ok(comps, b, c, pairs.subrange(k as int, pairs.len() as int), limits),
    ensures
        sparse_entries(comps, b, c, pairs, limits, k, cnt) == Ok::<usize, CodecError>(
            sat(cnt + entry_total(entity_updates(comps, b, c, pairs.subrange(k as int, pairs.len() as int), limits))),
        ),
    decreases pairs.len() - k,
{
    let ps = pairs.subrange(k as int, pairs.len() as int);
    if k < pairs.len() {
        let (x, y) = pairs[k as int];
        let be = b[x as int];
        let ce = c[y as int];
        let rest = pairs.subrange((k + 1) as int, pairs.len() as int);
        assert(ps[0] == pairs[k as int]);
        assert(ps.drop_first() =~= rest);
        assert(super::delta_law::pairs_ok(comps, b, c, rest, limits)) by {
            assert forall|t: int| 0 <= t < rest.len() implies #[trigger] rest[t] == ps[t + 1] by {}
        }
        let eu = entity_updates(comps, b, c, rest, limits);
        if has_updates(comps, be, ce, limits) == Ok::<bool, CodecError>(true) {
            let cu = comp_updates(comps, be.1, ce.1, 0);
            assert(entity_updates(comps, b, c, ps, limits) == seq![(ce.0, cu)] + eu);
            assert(entry_total(seq![(ce.0, cu)] + eu) == cu.len() + entry_total(eu)) by {
                assert((seq![(ce.0, cu)] + eu).drop_first() =~= eu);
            }
            lemma_entry_comps_count(comps, be.1, ce.1, limits, 0, cnt);
            lemma_sparse_entries_count(comps, b, c, pairs, limits, k + 1, sat(cnt + cu.len()));
        } else {
            lemma_sparse_entries_count(comps, b, c, pairs, limits, k + 1, cnt);
        }
    } else {
        assert(ps =~= Seq::<(nat, nat)>::empty());
    }
}

pub proof fn lemma_updates_len(
    comps: Seq<ComponentDef>,
    b: Seq<EntityV>,
    c: Seq<EntityV>,
    pairs: Seq<(nat, nat)>,
    limits: CodecLimits,
    k: nat,
    n: nat,
)
    requires
        k <= pairs.len(),
        updates_from(comps, b, c, pairs, limits, k) == Ok::<nat, CodecError>(n),
    ensures
        entity_updates(comps, b, c, pairs.subrange(k as int, pairs.len() as int), limits).len() == n,
    decreases pairs.len() - k,
{
    let ps = pairs.subrange(k as int, pairs.len() as int);
    if k < pairs.len() {
        assert(ps[0] == pairs[k as int]);
        assert(ps.drop_first() =~= pairs.subrange((k + 1) as int, pairs.len() as int));
        let n2 = updates_from(comps, b, c, pairs, limits, k + 1)->Ok_0;
        lemma_updates_len(comps, b, c, pairs, limits, k + 1, n2);
    } else {
        assert(ps =~= Seq::<(nat, nat)>::empty());
    }
}

/// Decoding a sparse update section body that was encoded gives the
/// delta's entity updates, when the schema lists its components in
/// ascending id order.
pub proof fn lemma_sparse_body_rt(
    d: Seq<u8>,
    cap: nat,
    comps: Seq<ComponentDef>,
    b: Seq<EntityV>,
    c: Seq<EntityV>,
    pairs: Seq<(nat, nat)>,
    count: nat,
    limits: CodecLimits,
    packed: bool,
    w: Seq<bool>,
)
    requires
        ids_ascending(comps),
        limits.max_fields_per_component <= u32::MAX,
        forall|t: int, u: int| 0 <= t < u < pairs.len() ==> c[pairs[t].1 as int].0@ < c[pairs[u].1 as int].0@,
        updates_from(comps, b, c, pairs, limits, 0) == Ok::<nat, CodecError>(count),
        enc_sparse_body(Seq::empty(), cap, comps, b, c, pairs, count, limits, packed) == Ok::<Seq<bool>, CodecError>(w),
        bits_of(d) == w,
        cap <= usize::MAX,
        d.len() <= limits.max_section_bytes,
        d.len() <= u32::MAX,
    ensures
        dec_sparse_section(d, comps, limits, packed) == Ok::<Seq<UpdEntV>, CodecError>(entity_updates(comps, b, c, pairs, limits)),
        super::delta_law::pairs_ok(comps, b, c, pairs, limits),
{
    lemma_bits_of_len(d);
    assert(pairs.subrange(0, pairs.len() as int) =~= pairs);
    let eu = entity_updates(comps, b, c, pairs, limits);
    let total = entry_total(eu);
    let entries = sparse_entries(comps, b, c, pairs, limits, 0, 0)->Ok_0;
    let w0 = Seq::<bool>::empty();
    let w1 = w_align(w0, cap)->Ok_0;
    assert(w1 =~= w0);
    let w2 = w_varu32(w1, cap, entries as u32)->Ok_0;
    let w3 = enc_sparse_pairs(w2, cap, comps, b, c, pairs, limits, packed, 0)->Ok_0;
    assert(w_align(w3, cap) == Ok::<Seq<bool>, BitError>(w));
    assert(rcap(d) == w.len());
    assert(written_in(w3, bits_of(d))) by {
        assert(w == padded(w3));
    }
    lemma_sparse_pairs_rt(d, w2, cap, comps, b, c, pairs, limits, packed, 0, total, 0, None, None, Seq::empty(), w3);
    lemma_sparse_entries_count(comps, b, c, pairs, limits, 0, 0);
    assert(total <= u32::MAX);
    assert(entries == total);
    lemma_varu32_rt(d, w1, cap, entries as u32, w2);
    lemma_align_rt(d, w3, cap, w);
    lemma_updates_len(comps, b, c, pairs, limits, 0, count);
    assert(Seq::<UpdEntV>::empty() + eu =~= eu);
}

} // verus!
