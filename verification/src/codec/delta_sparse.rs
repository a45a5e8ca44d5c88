//! Sparse update sections: one entry per changed component, listing the
//! indices and values of its changed fields.
use super::diff::{
    check_pair, count_set, count_true, entity_has_updates, has_updates, index_bits_spec, mask_from,
    nat_pairs, pair_check, pair_mask, sat_mul, saturating_mul,
};
use super::error::{CodecError, CodecResult, LimitKind, MaskKind, MaskReason};
use super::limits::CodecLimits;
use super::model::{enc_field, lift, required_bits, w_align, w_bits, w_le, w_varu32, write_field_value, FieldValue};
use super::scratch::CodecScratch;
use super::snapshot::{entities_view, find_comp, find_component, ComponentV, EntitySnapshot, EntityV};
use crate::bitstream::BitWriter;
use crate::schema::{ComponentDef, ComponentId, FieldDef};
use vstd::prelude::*;

verus! {

/// Entries (changed components) counted from schema index `k` on, starting
/// from `cnt`.
pub open spec fn entry_comps(
    comps: Seq<ComponentDef>,
    bcs: Seq<ComponentV>,
    ccs: Seq<ComponentV>,
    limits: CodecLimits,
    k: nat,
    cnt: usize,
) -> Result<usize, CodecError>
    decreases comps.len() - k,
{
    if k >= comps.len() {
        Ok(cnt)
    } else {
        let comp = comps[k as int];
        match (find_comp(bcs, comp.id), find_comp(ccs, comp.id)) {
            (Some(bi), Some(ci)) => match pair_check(comp, bcs[bi as int].1, ccs[ci as int].1, limits) {
                Some(e) => Err(e),
                None => match mask_from(comp.id, comp.fields@, bcs[bi as int].1, ccs[ci as int].1, 0) {
                    Err(e) => Err(e),
                    Ok(m) => entry_comps(
                        comps,
                        bcs,
                        ccs,
                        limits,
                        k + 1,
                        if count_true(m) > 0 {
                            cnt.saturating_add(1)
                        } else {
                            cnt
                        },
                    ),
                },
            },
            (None, None) => entry_comps(comps, bcs, ccs, limits, k + 1, cnt),
            _ => Err(
                CodecError::InvalidMask {
                    kind: MaskKind::ComponentMask,
                    reason: MaskReason::ComponentPresenceMismatch { component: comp.id },
                },
            ),
        }
    }
}

/// Entries counted over the matched pairs from `k` on.
pub open spec fn sparse_entries(
    comps: Seq<ComponentDef>,
    b: Seq<EntityV>,
    c: Seq<EntityV>,
    pairs: Seq<(nat, nat)>,
    limits: CodecLimits,
    k: nat,
    cnt: usize,
) -> Result<usize, CodecError>
    decreases pairs.len() - k,
{
    if k >= pairs.len() {
        Ok(cnt)
    } else {
        let be = b[pairs[k as int].0 as int];
        let ce = c[pairs[k as int].1 as int];
        match has_updates(comps, be, ce, limits) {
            Err(e) => Err(e),
            Ok(false) => sparse_entries(comps, b, c, pairs, limits, k + 1, cnt),
            Ok(true) => match entry_comps(comps, be.1, ce.1, limits, 0, cnt) {
                Err(e) => Err(e),
                Ok(cnt1) => sparse_entries(comps, b, c, pairs, limits, k + 1, cnt1),
            },
        }
    }
}

fn count_entity_entries(
    comps: &Vec<ComponentDef>,
    baseline: &EntitySnapshot,
    current: &EntitySnapshot,
    limits: &CodecLimits,
    scratch: &mut CodecScratch,
    cnt0: usize,
) -> (r: CodecResult<usize>)
    ensures
        r == entry_comps(comps@, baseline@.1, current@.1, *limits, 0, cnt0),
{
    let n = comps.len();
    let mut cnt = cnt0;
    let mut k: usize = 0;
    while k < n
        invariant
            n == comps@.len(),
            k <= n,
            entry_comps(comps@, baseline@.1, current@.1, *limits, 0, cnt0) == entry_comps(
                comps@,
                baseline@.1,
                current@.1,
                *limits,
                k as nat,
                cnt,
            ),
        decreases n - k,
    {
        let comp = &comps[k];
        match (find_component(baseline, comp.id), find_component(current, comp.id)) {
            (Some(bi), Some(ci)) => {
                let b = &baseline.components[bi];
                let c = &current.components[ci];
                assert(baseline@.1[bi as int] == b@);
                assert(current@.1[ci as int] == c@);
                check_pair(comp, b, c, limits)?;
                pair_mask(comp, b, c, scratch)?;
                if count_set(&scratch.field_mask, comp.fields.len()) > 0 {
                    cnt = cnt.saturating_add(1);
                }
            },
            (None, None) => {},
            _ => {
                return Err(
                    CodecError::InvalidMask {
                        kind: MaskKind::ComponentMask,
                        reason: MaskReason::ComponentPresenceMismatch { component: comp.id },
                    },
                );
            },
        }
        k = k + 1;
    }
    Ok(cnt)
}

/// Counts the entries of a sparse update section.
pub fn count_sparse_update_entries(
    comps: &Vec<ComponentDef>,
    baseline: &[EntitySnapshot],
    current: &[EntitySnapshot],
    pairs: &Vec<(usize, usize)>,
    limits: &CodecLimits,
    scratch: &mut CodecScratch,
) -> (r: CodecResult<usize>)
    requires
        forall|k: int| 0 <= k < pairs@.len() ==> pairs@[k].0 < baseline@.len() && pairs@[k].1 < current@.len(),
    ensures
        r == sparse_entries(comps@, entities_view(baseline@), entities_view(current@), nat_pairs(pairs@), *limits, 0, 0),
{
    let ghost b = entities_view(baseline@);
    let ghost c = entities_view(current@);
    let ghost ps = nat_pairs(pairs@);
    let n = pairs.len();
    let mut cnt: usize = 0;
    let mut k: usize = 0;
    while k < n
        invariant
            n == pairs@.len(),
            ps == nat_pairs(pairs@),
            b == entities_view(baseline@),
            c == entities_view(current@),
            k <= n,
            forall|m: int| 0 <= m < pairs@.len() ==> pairs@[m].0 < baseline@.len() && pairs@[m].1 < current@.len(),
            sparse_entries(comps@, b, c, ps, *limits, 0, 0) == sparse_entries(comps@, b, c, ps, *limits, k as nat, cnt),
        decreases n - k,
    {
        let (bi, ci) = pairs[k];
        assert(ps[k as int] == (bi as nat, ci as nat));
        assert(b[bi as int] == baseline@[bi as int]@);
        assert(c[ci as int] == current@[ci as int]@);
        if entity_has_updates(comps, &baseline[bi], &current[ci], limits)? {
            cnt = count_entity_entries(comps, &baseline[bi], &current[ci], limits, scratch, cnt)?;
        }
        k = k + 1;
    }
    Ok(cnt)
}

/// Writing the changed fields from `i` on of one entry: each index (in
/// `ib` bits when packed, as an aligned varint otherwise) and value.
pub open spec fn enc_sparse_fields(
    w: Seq<bool>,
    cap: nat,
    cid: ComponentId,
    fs: Seq<FieldDef>,
    cv: Seq<FieldValue>,
    m: Seq<bool>,
    ib: u8,
    packed: bool,
    i: nat,
) -> Result<Seq<bool>, CodecError>
    decreases fs.len() - i,
{
    if i >= fs.len() {
        Ok(w)
    } else if !m[i as int] {
        enc_sparse_fields(w, cap, cid, fs, cv, m, ib, packed, i + 1)
    } else {
        let idx = if packed {
            if ib > 0 {
                lift(w_bits(w, cap, i as u64, ib))
            } else {
                Ok(w)
            }
        } else {
            match w_align(w, cap) {
                Err(e) => Err(CodecError::Bitstream(e)),
                Ok(w1) => lift(w_varu32(w1, cap, i as u32)),
            }
        };
        match idx {
            Err(e) => Err(e),
            Ok(w2) => match enc_field(w2, cap, cid, fs[i as int], cv[i as int]) {
                Err(e) => Err(e),
                Ok(w3) => enc_sparse_fields(w3, cap, cid, fs, cv, m, ib, packed, i + 1),
            },
        }
    }
}

/// The header of one entry: entity id, component id, changed field count.
pub open spec fn enc_entry_head(w: Seq<bool>, cap: nat, eid: u32, cid: u16, changed: nat, packed: bool) -> Result<
    Seq<bool>,
    CodecError,
> {
    match w_align(w, cap) {
        Err(e) => Err(CodecError::Bitstream(e)),
        Ok(w1) => {
            let r = if packed {
                match w_varu32(w1, cap, eid) {
                    Err(e) => Err(e),
                    Ok(w2) => w_varu32(w2, cap, cid as u32),
                }
            } else {
                match w_le(w1, cap, eid as u64, 4) {
                    Err(e) => Err(e),
                    Ok(w2) => w_le(w2, cap, cid as u64, 2),
                }
            };
            match r {
                Err(e) => Err(CodecError::Bitstream(e)),
                Ok(w3) => lift(w_varu32(w3, cap, changed as u32)),
            }
        },
    }
}

/// Writing the entries of one updated entity from schema index `k` on.
pub open spec fn enc_sparse_comps(
    w: Seq<bool>,
    cap: nat,
    comps: Seq<ComponentDef>,
    eid: u32,
    bcs: Seq<ComponentV>,
    ccs: Seq<ComponentV>,
    limits: CodecLimits,
    packed: bool,
    k: nat,
) -> Result<Seq<bool>, CodecError>
    decreases comps.len() - k,
{
    if k >= comps.len() {
        Ok(w)
    } else {
        let comp = comps[k as int];
        match (find_comp(bcs, comp.id), find_comp(ccs, comp.id)) {
            (Some(bi), Some(ci)) => match pair_check(comp, bcs[bi as int].1, ccs[ci as int].1, limits) {
                Some(e) => Err(e),
                None => match mask_from(comp.id, comp.fields@, bcs[bi as int].1, ccs[ci as int].1, 0) {
                    Err(e) => Err(e),
                    Ok(m) => {
                        let changed = count_true(m);
                        if changed > 0 {
                            match enc_entry_head(w, cap, eid, comp.id@, changed, packed) {
                                Err(e) => Err(e),
                                Ok(w1) => match enc_sparse_fields(
                                    w1,
                                    cap,
                                    comp.id,
                                    comp.fields@,
                                    ccs[ci as int].1,
                                    m,
                                    index_bits_spec(comp.fields@.len() as usize),
                                    packed,
                                    0,
                                ) {
                                    Err(e) => Err(e),
                                    Ok(w2) => enc_sparse_comps(w2, cap, comps, eid, bcs, ccs, limits, packed, k + 1),
                                },
                            }
                        } else {
                            enc_sparse_comps(w, cap, comps, eid, bcs, ccs, limits, packed, k + 1)
                        }
                    },
                },
            },
            (None, None) => enc_sparse_comps(w, cap, comps, eid, bcs, ccs, limits, packed, k + 1),
            _ => Err(
                CodecError::InvalidMask {
                    kind: MaskKind::ComponentMask,
                    reason: MaskReason::ComponentPresenceMismatch { component: comp.id },
                },
            ),
        }
    }
}

/// Writing the entries of the matched pairs from `k` on.
pub open spec fn enc_sparse_pairs(
    w: Seq<bool>,
    cap: nat,
    comps: Seq<ComponentDef>,
    b: Seq<EntityV>,
    c: Seq<EntityV>,
    pairs: Seq<(nat, nat)>,
    limits: CodecLimits,
    packed: bool,
    k: nat,
) -> Result<Seq<bool>, CodecError>
    decreases pairs.len() - k,
{
    if k >= pairs.len() {
        Ok(w)
    } else {
        let be = b[pairs[k as int].0 as int];
        let ce = c[pairs[k as int].1 as int];
        match has_updates(comps, be, ce, limits) {
            Err(e) => Err(e),
            Ok(false) => enc_sparse_pairs(w, cap, comps, b, c, pairs, limits, packed, k + 1),
            Ok(true) => match enc_sparse_comps(w, cap, comps, ce.0@, be.1, ce.1, limits, packed, 0) {
                Err(e) => Err(e),
                Ok(w1) => enc_sparse_pairs(w1, cap, comps, b, c, pairs, limits, packed, k + 1),
            },
        }
    }
}

/// The body of a sparse update section.
pub open spec fn enc_sparse_body(
    w: Seq<bool>,
    cap: nat,
    comps: Seq<ComponentDef>,
    b: Seq<EntityV>,
    c: Seq<EntityV>,
    pairs: Seq<(nat, nat)>,
    count: nat,
    limits: CodecLimits,
    packed: bool,
) -> Result<Seq<bool>, CodecError> {
    if count > limits.max_entities_update {
        Err(
            CodecError::LimitsExceeded {
                kind: LimitKind::EntitiesUpdate,
                limit: limits.max_entities_update,
                actual: count as usize,
            },
        )
    } else {
        match sparse_entries(comps, b, c, pairs, limits, 0, 0) {
            Err(e) => Err(e),
            Ok(entries) => {
                let entry_limit = sat_mul(limits.max_entities_update, limits.max_components_per_entity);
                if entries > entry_limit {
                    Err(
                        CodecError::LimitsExceeded {
                            kind: LimitKind::EntitiesUpdate,
                            limit: entry_limit,
                            actual: entries,
                        },
                    )
                } else {
                    match w_align(w, cap) {
                        Err(e) => Err(CodecError::Bitstream(e)),
                        Ok(w1) => match w_varu32(w1, cap, entries as u32) {
                            Err(e) => Err(CodecError::Bitstream(e)),
                            Ok(w2) => match enc_sparse_pairs(w2, cap, comps, b, c, pairs, limits, packed, 0) {
                                Err(e) => Err(e),
                                Ok(w3) => lift(w_align(w3, cap)),
                            },
                        },
                    }
                }
            },
        }
    }
}

fn write_sparse_fields(
    cid: ComponentId,
    fields: &Vec<FieldDef>,
    values: &Vec<FieldValue>,
    mask: &Vec<bool>,
    ib: u8,
    packed: bool,
    writer: &mut BitWriter,
) -> (r: CodecResult<()>)
    requires
        fields@.len() == values@.len(),
        fields@.len() <= mask@.len(),
    ensures
        final(writer).same_buffer(old(writer)),
        final(final(writer).target())@ == final(old(writer).target())@,
        match enc_sparse_fields(old(writer).written(), old(writer).capacity(), cid, fields@, values@, mask@.take(fields@.len() as int), ib, packed, 0) {
            Ok(w) => r is Ok && final(writer).written() == w,
            Err(e) => r == Err::<(), CodecError>(e),
        },
{
    let n = fields.len();
    let ghost m = mask@.take(n as int);
    let mut i: usize = 0;
    while i < n
        invariant
            n == fields@.len(),
            n == values@.len(),
            n <= mask@.len(),
            m == mask@.take(n as int),
            i <= n,
            writer.same_buffer(old(writer)),
            final(writer.target())@ == final(old(writer).target())@,
            enc_sparse_fields(old(writer).written(), old(writer).capacity(), cid, fields@, values@, m, ib, packed, 0)
                == enc_sparse_fields(writer.written(), writer.capacity(), cid, fields@, values@, m, ib, packed, i as nat),
        decreases n - i,
    {
        if mask[i] {
            if packed {
                if ib > 0 {
                    if let Err(e) = writer.write_bits(i as u64, ib) {
                        return Err(CodecError::Bitstream(e));
                    }
                }
            } else {
                if let Err(e) = writer.align_to_byte() {
                    return Err(CodecError::Bitstream(e));
                }
                if let Err(e) = writer.write_varu32(i as u32) {
                    return Err(CodecError::Bitstream(e));
                }
            }
            write_field_value(cid, fields[i], values[i], writer)?;
        }
        i = i + 1;
    }
    Ok(())
}

fn write_entry_head(eid: u32, cid: u16, changed: usize, packed: bool, writer: &mut BitWriter) -> (r: CodecResult<()>)
    ensures
        final(writer).same_buffer(old(writer)),
        final(final(writer).target())@ == final(old(writer).target())@,
        match enc_entry_head(old(writer).written(), old(writer).capacity(), eid, cid, changed as nat, packed) {
            Ok(w) => r is Ok && final(writer).written() == w,
            Err(e) => r == Err::<(), CodecError>(e),
        },
{
    if let Err(e) = writer.align_to_byte() {
        return Err(CodecError::Bitstream(e));
    }
    if packed {
        if let Err(e) = writer.write_varu32(eid) {
            return Err(CodecError::Bitstream(e));
        }
        if let Err(e) = writer.write_varu32(cid as u32) {
            return Err(CodecError::Bitstream(e));
        }
    } else {
        if let Err(e) = writer.write_u32_aligned(eid) {
            return Err(CodecError::Bitstream(e));
        }
        if let Err(e) = writer.write_u16_aligned(cid) {
            return Err(CodecError::Bitstream(e));
        }
    }
    match writer.write_varu32(changed as u32) {
        Ok(()) => Ok(()),
        Err(e) => Err(CodecError::Bitstream(e)),
    }
}

fn write_sparse_entity(
    comps: &Vec<ComponentDef>,
    baseline: &EntitySnapshot,
    current: &EntitySnapshot,
    limits: &CodecLimits,
    scratch: &mut CodecScratch,
    packed: bool,
    writer: &mut BitWriter,
) -> (r: CodecResult<()>)
    ensures
        final(writer).same_buffer(old(writer)),
        final(final(writer).target())@ == final(old(writer).target())@,
        match enc_sparse_comps(old(writer).written(), old(writer).capacity(), comps@, current@.0@, baseline@.1, current@.1, *limits, packed, 0) {
            Ok(w) => r is Ok && final(writer).written() == w,
            Err(e) => r == Err::<(), CodecError>(e),
        },
{
    let n = comps.len();
    let eid = current.id.raw();
    let mut k: usize = 0;
    while k < n
        invariant
            n == comps@.len(),
            k <= n,
            eid == current@.0@,
            writer.same_buffer(old(writer)),
            final(writer.target())@ == final(old(writer).target())@,
            enc_sparse_comps(old(writer).written(), old(writer).capacity(), comps@, eid, baseline@.1, current@.1, *limits, packed, 0)
                == enc_sparse_comps(writer.written(), writer.capacity(), comps@, eid, baseline@.1, current@.1, *limits, packed, k as nat),
        decreases n - k,
    {
        let comp = &comps[k];
        match (find_component(baseline, comp.id), find_component(current, comp.id)) {
            (Some(bi), Some(ci)) => {
                let b = &baseline.components[bi];
                let c = &current.components[ci];
                assert(baseline@.1[bi as int] == b@);
                assert(current@.1[ci as int] == c@);
                check_pair(comp, b, c, limits)?;
                pair_mask(comp, b, c, scratch)?;
                let nf = comp.fields.len();
                let changed = count_set(&scratch.field_mask, nf);
                if changed > 0 {
                    write_entry_head(eid, comp.id.get(), changed, packed, writer)?;
                    let ib = required_bits(nf.saturating_sub(1) as u64);
                    write_sparse_fields(comp.id, &comp.fields, &c.fields, &scratch.field_mask, ib, packed, writer)?;
                }
            },
            (None, None) => {},
            _ => {
                return Err(
                    CodecError::InvalidMask {
                        kind: MaskKind::ComponentMask,
                        reason: MaskReason::ComponentPresenceMismatch { component: comp.id },
                    },
                );
            },
        }
        k = k + 1;
    }
    Ok(())
}

fn encode_update_body_sparse(
    comps: &Vec<ComponentDef>,
    baseline: &[EntitySnapshot],
    current: &[EntitySnapshot],
    pairs: &Vec<(usize, usize)>,
    update_count: usize,
    limits: &CodecLimits,
    scratch: &mut CodecScratch,
    packed: bool,
    writer: &mut BitWriter,
) -> (r: CodecResult<()>)
    requires
        forall|k: int| 0 <= k < pairs@.len() ==> pairs@[k].0 < baseline@.len() && pairs@[k].1 < current@.len(),
    ensures
        final(writer).same_buffer(old(writer)),
        final(final(writer).target())@ == final(old(writer).target())@,
        match enc_sparse_body(
            old(writer).written(),
            old(writer).capacity(),
            comps@,
            entities_view(baseline@),
            entities_view(current@),
            nat_pairs(pairs@),
            update_count as nat,
            *limits,
            packed,
        ) {
            Ok(w) => r is Ok && final(writer).written() == w,
            Err(e) => r == Err::<(), CodecError>(e),
        },
        r is Ok ==> final(writer).written().len() % 8 == 0,
{
    if update_count > limits.max_entities_update {
        return Err(
            CodecError::LimitsExceeded {
                kind: LimitKind::EntitiesUpdate,
                limit: limits.max_entities_update,
                actual: update_count,
            },
        );
    }
    let entries = count_sparse_update_entries(comps, baseline, current, pairs, limits, scratch)?;
    let entry_limit = saturating_mul(limits.max_entities_update, limits.max_components_per_entity);
    if entries > entry_limit {
        return Err(
            CodecError::LimitsExceeded { kind: LimitKind::EntitiesUpdate, limit: entry_limit, actual: entries },
        );
    }
    if let Err(e) = writer.align_to_byte() {
        return Err(CodecError::Bitstream(e));
    }
    if let Err(e) = writer.write_varu32(entries as u32) {
        return Err(CodecError::Bitstream(e));
    }
    let ghost b = entities_view(baseline@);
    let ghost c = entities_view(current@);
    let ghost ps = nat_pairs(pairs@);
    let n = pairs.len();
    let mut k: usize = 0;
    while k < n
        invariant
            n == pairs@.len(),
            ps == nat_pairs(pairs@),
            b == entities_view(baseline@),
            c == entities_view(current@),
            k <= n,
            forall|m: int| 0 <= m < pairs@.len() ==> pairs@[m].0 < baseline@.len() && pairs@[m].1 < current@.len(),
            writer.same_buffer(old(writer)),
            final(writer.target())@ == final(old(writer).target())@,
            enc_sparse_body(old(writer).written(), old(writer).capacity(), comps@, b, c, ps, update_count as nat, *limits, packed)
                == match enc_sparse_pairs(writer.written(), writer.capacity(), comps@, b, c, ps, *limits, packed, k as nat) {
                Err(e) => Err(e),
                Ok(w3) => lift(w_align(w3, writer.capacity())),
            },
        decreases n - k,
    {
        let (bi, ci) = pairs[k];
        assert(ps[k as int] == (bi as nat, ci as nat));
        assert(b[bi as int] == baseline@[bi as int]@);
        assert(c[ci as int] == current@[ci as int]@);
        if entity_has_updates(comps, &baseline[bi], &current[ci], limits)? {
            write_sparse_entity(comps, &baseline[bi], &current[ci], limits, scratch, packed, writer)?;
        }
        k = k + 1;
    }
    match writer.align_to_byte() {
        Ok(()) => Ok(()),
        Err(e) => Err(CodecError::Bitstream(e)),
    }
}

/// Writes a sparse update section body with field indices in as few bits
/// as the component's field count needs.
pub fn encode_update_body_sparse_packed(
    comps: &Vec<ComponentDef>,
    baseline: &[EntitySnapshot],
    current: &[EntitySnapshot],
    pairs: &Vec<(usize, usize)>,
    update_count: usize,
    limits: &CodecLimits,
    scratch: &mut CodecScratch,
    writer: &mut BitWriter,
) -> (r: CodecResult<()>)
    requires
        forall|k: int| 0 <= k < pairs@.len() ==> pairs@[k].0 < baseline@.len() && pairs@[k].1 < current@.len(),
    ensures
        final(writer).same_buffer(old(writer)),
        final(final(writer).target())@ == final(old(writer).target())@,
        match enc_sparse_body(old(writer).written(), old(writer).capacity(), comps@, entities_view(baseline@), entities_view(current@), nat_pairs(pairs@), update_count as nat, *limits, true) {
            Ok(w) => r is Ok && final(writer).written() == w,
            Err(e) => r == Err::<(), CodecError>(e),
        },
        r is Ok ==> final(writer).written().len() % 8 == 0,
{
    encode_update_body_sparse(comps, baseline, current, pairs, update_count, limits, scratch, true, writer)
}

/// Writes a sparse update section body with aligned ids and varint field
/// indices.
pub fn encode_update_body_sparse_varint(
    comps: &Vec<ComponentDef>,
    baseline: &[EntitySnapshot],
    current: &[EntitySnapshot],
    pairs: &Vec<(usize, usize)>,
    update_count: usize,
    limits: &CodecLimits,
    scratch: &mut CodecScratch,
    writer: &mut BitWriter,
) -> (r: CodecResult<()>)
    requires
        forall|k: int| 0 <= k < pairs@.len() ==> pairs@[k].0 < baseline@.len() && pairs@[k].1 < current@.len(),
    ensures
        final(writer).same_buffer(old(writer)),
        final(final(writer).target())@ == final(old(writer).target())@,
        match enc_sparse_body(old(writer).written(), old(writer).capacity(), comps@, entities_view(baseline@), entities_view(current@), nat_pairs(pairs@), update_count as nat, *limits, false) {
            Ok(w) => r is Ok && final(writer).written() == w,
            Err(e) => r == Err::<(), CodecError>(e),
        },
        r is Ok ==> final(writer).written().len() % 8 == 0,
{
    encode_update_body_sparse(comps, baseline, current, pairs, update_count, limits, scratch, false, writer)
}

} // verus!
