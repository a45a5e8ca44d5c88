//! Section bodies of a delta snapshot: destroyed ids, created entities and
//! masked updates.
use super::diff::{
    check_pair, ensure_component_presence_matches, entity_has_updates, has_updates, mask_from,
    pair_check, pair_mask, presence_error,
};
use super::error::{CodecError, CodecResult, LimitKind, MaskKind, MaskReason};
use super::limits::CodecLimits;
use super::model::{enc_field, lift, w_align, w_bit, w_le, w_varu32, write_field_value, FieldValue};
use super::scratch::CodecScratch;
use super::snapshot::{
    enc_mask, enc_ones, enc_values, ensure_known_components, entities_view, find_comp, find_component,
    unknown_from, write_component_mask, write_ones, write_values, ComponentSnapshot, ComponentV,
    EntitySnapshot, EntityV,
};
use crate::bitstream::BitWriter;
use crate::schema::{ComponentDef, ComponentId, FieldDef};
use vstd::prelude::*;

verus! {

// ---------------------------------------------------------------------------
// Destroy section.
/// Writing the ids of the destroyed entities `ds[k..]`.
pub open spec fn enc_destroy_ids(w: Seq<bool>, cap: nat, b: Seq<EntityV>, ds: Seq<nat>, k: nat) -> Result<
    Seq<bool>,
    CodecError,
>
    decreases ds.len() - k,
{
    if k >= ds.len() {
        Ok(w)
    } else {
        match w_align(w, cap) {
            Err(e) => Err(CodecError::Bitstream(e)),
            Ok(w1) => match w_le(w1, cap, b[ds[k as int] as int].0@ as u64, 4) {
                Err(e) => Err(CodecError::Bitstream(e)),
                Ok(w2) => enc_destroy_ids(w2, cap, b, ds, k + 1),
            },
        }
    }
}

/// The body of a destroy section.
pub open spec fn enc_destroy_body(w: Seq<bool>, cap: nat, b: Seq<EntityV>, ds: Seq<nat>, limits: CodecLimits) -> Result<
    Seq<bool>,
    CodecError,
> {
    if ds.len() > limits.max_entities_destroy {
        Err(
            CodecError::LimitsExceeded {
                kind: LimitKind::EntitiesDestroy,
                limit: limits.max_entities_destroy,
                actual: ds.len() as usize,
            },
        )
    } else {
        match w_align(w, cap) {
            Err(e) => Err(CodecError::Bitstream(e)),
            Ok(w1) => match w_varu32(w1, cap, ds.len() as u32) {
                Err(e) => Err(CodecError::Bitstream(e)),
                Ok(w2) => match enc_destroy_ids(w2, cap, b, ds, 0) {
                    Err(e) => Err(e),
                    Ok(w3) => lift(w_align(w3, cap)),
                },
            },
        }
    }
}

/// Indices as naturals.
pub open spec fn idx_nats(v: Seq<usize>) -> Seq<nat> {
    v.map_values(|x: usize| x as nat)
}

/// Writes the destroy section body.
pub fn encode_destroy_body(
    baseline: &[EntitySnapshot],
    destroys: &Vec<usize>,
    limits: &CodecLimits,
    writer: &mut BitWriter,
) -> (r: CodecResult<()>)
    requires
        forall|k: int| 0 <= k < destroys@.len() ==> destroys@[k] < baseline@.len(),
    ensures
        final(writer).same_buffer(old(writer)),
        final(final(writer).target())@ == final(old(writer).target())@,
        match enc_destroy_body(old(writer).written(), old(writer).capacity(), entities_view(baseline@), idx_nats(destroys@), *limits) {
            Ok(w) => r is Ok && final(writer).written() == w,
            Err(e) => r == Err::<(), CodecError>(e),
        },
        r is Ok ==> final(writer).written().len() % 8 == 0,
{
    let count = destroys.len();
    if count > limits.max_entities_destroy {
        return Err(
            CodecError::LimitsExceeded {
                kind: LimitKind::EntitiesDestroy,
                limit: limits.max_entities_destroy,
                actual: count,
            },
        );
    }
    if let Err(e) = writer.align_to_byte() {
        return Err(CodecError::Bitstream(e));
    }
    if let Err(e) = writer.write_varu32(count as u32) {
        return Err(CodecError::Bitstream(e));
    }
    let ghost b = entities_view(baseline@);
    let ghost ds = idx_nats(destroys@);
    let mut k: usize = 0;
    while k < count
        invariant
            count == destroys@.len(),
            ds == idx_nats(destroys@),
            b == entities_view(baseline@),
            k <= count,
            forall|m: int| 0 <= m < destroys@.len() ==> destroys@[m] < baseline@.len(),
            writer.same_buffer(old(writer)),
            final(writer.target())@ == final(old(writer).target())@,
            enc_destroy_body(old(writer).written(), old(writer).capacity(), b, ds, *limits) == match enc_destroy_ids(
                writer.written(),
                writer.capacity(),
                b,
                ds,
                k as nat,
            ) {
                Err(e) => Err(e),
                Ok(w3) => lift(w_align(w3, writer.capacity())),
            },
        decreases count - k,
    {
        let d = destroys[k];
        assert(ds[k as int] == d as nat);
        assert(b[d as int] == baseline@[d as int]@);
        if let Err(e) = writer.align_to_byte() {
            return Err(CodecError::Bitstream(e));
        }
        if let Err(e) = writer.write_u32_aligned(baseline[d].id.raw()) {
            return Err(CodecError::Bitstream(e));
        }
        k = k + 1;
    }
    match writer.align_to_byte() {
        Ok(()) => Ok(()),
        Err(e) => Err(CodecError::Bitstream(e)),
    }
}

// ---------------------------------------------------------------------------
// Create section.
/// Writing a component of a created entity: count checks, full mask, values.
pub open spec fn enc_full_component(w: Seq<bool>, cap: nat, c: ComponentDef, vs: Seq<FieldValue>, limits: CodecLimits) -> Result<
    Seq<bool>,
    CodecError,
> {
    let n = c.fields@.len();
    if vs.len() != n {
        Err(
            CodecError::InvalidMask {
                kind: MaskKind::FieldMask { component: c.id },
                reason: MaskReason::FieldCountMismatch { expected: n as usize, actual: vs.len() as usize },
            },
        )
    } else if vs.len() > limits.max_fields_per_component {
        Err(
            CodecError::LimitsExceeded {
                kind: LimitKind::FieldsPerComponent,
                limit: limits.max_fields_per_component,
                actual: vs.len() as usize,
            },
        )
    } else {
        match enc_ones(w, cap, n, 0) {
            Ok(w1) => enc_values(w1, cap, c.id, c.fields@, vs, 0),
            Err(e) => Err(e),
        }
    }
}

fn write_full_component(
    component: &ComponentDef,
    snapshot: &ComponentSnapshot,
    limits: &CodecLimits,
    writer: &mut BitWriter,
) -> (r: CodecResult<()>)
    ensures
        final(writer).same_buffer(old(writer)),
        final(final(writer).target())@ == final(old(writer).target())@,
        match enc_full_component(old(writer).written(), old(writer).capacity(), *component, snapshot.fields@, *limits) {
            Ok(w) => r is Ok && final(writer).written() == w,
            Err(e) => r == Err::<(), CodecError>(e),
        },
{
    let n = component.fields.len();
    if snapshot.fields.len() != n {
        return Err(
            CodecError::InvalidMask {
                kind: MaskKind::FieldMask { component: component.id },
                reason: MaskReason::FieldCountMismatch { expected: n, actual: snapshot.fields.len() },
            },
        );
    }
    if snapshot.fields.len() > limits.max_fields_per_component {
        return Err(
            CodecError::LimitsExceeded {
                kind: LimitKind::FieldsPerComponent,
                limit: limits.max_fields_per_component,
                actual: snapshot.fields.len(),
            },
        );
    }
    write_ones(n, writer)?;
    write_values(component.id, &component.fields, &snapshot.fields, writer)
}

/// Writing the present components of a created entity from schema index `k` on.
pub open spec fn enc_created_comps(
    w: Seq<bool>,
    cap: nat,
    comps: Seq<ComponentDef>,
    cs: Seq<ComponentV>,
    limits: CodecLimits,
    k: nat,
) -> Result<Seq<bool>, CodecError>
    decreases comps.len() - k,
{
    if k >= comps.len() {
        Ok(w)
    } else {
        match find_comp(cs, comps[k as int].id) {
            None => enc_created_comps(w, cap, comps, cs, limits, k + 1),
            Some(i) => match enc_full_component(w, cap, comps[k as int], cs[i as int].1, limits) {
                Ok(w1) => enc_created_comps(w1, cap, comps, cs, limits, k + 1),
                Err(e) => Err(e),
            },
        }
    }
}

/// Writing one created entity.
pub open spec fn enc_created_entity(w: Seq<bool>, cap: nat, comps: Seq<ComponentDef>, e: EntityV, limits: CodecLimits) -> Result<
    Seq<bool>,
    CodecError,
> {
    match w_align(w, cap) {
        Err(err) => Err(CodecError::Bitstream(err)),
        Ok(w1) => match w_le(w1, cap, e.0@ as u64, 4) {
            Err(err) => Err(CodecError::Bitstream(err)),
            Ok(w2) => match unknown_from(comps, e.1, 0) {
                Some(err) => Err(err),
                None => match enc_mask(w2, cap, comps, e.1, 0) {
                    Err(err) => Err(err),
                    Ok(w3) => enc_created_comps(w3, cap, comps, e.1, limits, 0),
                },
            },
        },
    }
}

/// Writing the created entities `cs_idx[k..]`.
pub open spec fn enc_created(
    w: Seq<bool>,
    cap: nat,
    comps: Seq<ComponentDef>,
    c: Seq<EntityV>,
    cs_idx: Seq<nat>,
    limits: CodecLimits,
    k: nat,
) -> Result<Seq<bool>, CodecError>
    decreases cs_idx.len() - k,
{
    if k >= cs_idx.len() {
        Ok(w)
    } else {
        match enc_created_entity(w, cap, comps, c[cs_idx[k as int] as int], limits) {
            Ok(w1) => enc_created(w1, cap, comps, c, cs_idx, limits, k + 1),
            Err(e) => Err(e),
        }
    }
}

/// The body of a delta's create section.
pub open spec fn enc_delta_create_body(
    w: Seq<bool>,
    cap: nat,
    comps: Seq<ComponentDef>,
    c: Seq<EntityV>,
    cs_idx: Seq<nat>,
    limits: CodecLimits,
) -> Result<Seq<bool>, CodecError> {
    if cs_idx.len() > limits.max_entities_create {
        Err(
            CodecError::LimitsExceeded {
                kind: LimitKind::EntitiesCreate,
                limit: limits.max_entities_create,
                actual: cs_idx.len() as usize,
            },
        )
    } else {
        match w_align(w, cap) {
            Err(e) => Err(CodecError::Bitstream(e)),
            Ok(w1) => match w_varu32(w1, cap, cs_idx.len() as u32) {
                Err(e) => Err(CodecError::Bitstream(e)),
                Ok(w2) => match enc_created(w2, cap, comps, c, cs_idx, limits, 0) {
                    Err(e) => Err(e),
                    Ok(w3) => lift(w_align(w3, cap)),
                },
            },
        }
    }
}

fn write_created_components(
    comps: &Vec<ComponentDef>,
    entity: &EntitySnapshot,
    limits: &CodecLimits,
    writer: &mut BitWriter,
) -> (r: CodecResult<()>)
    ensures
        final(writer).same_buffer(old(writer)),
        final(final(writer).target())@ == final(old(writer).target())@,
        match enc_created_comps(old(writer).written(), old(writer).capacity(), comps@, entity@.1, *limits, 0) {
            Ok(w) => r is Ok && final(writer).written() == w,
            Err(e) => r == Err::<(), CodecError>(e),
        },
{
    let n = comps.len();
    let mut k: usize = 0;
    while k < n
        invariant
            n == comps@.len(),
            k <= n,
            writer.same_buffer(old(writer)),
            final(writer.target())@ == final(old(writer).target())@,
            enc_created_comps(old(writer).written(), old(writer).capacity(), comps@, entity@.1, *limits, 0)
                == enc_created_comps(writer.written(), writer.capacity(), comps@, entity@.1, *limits, k as nat),
        decreases n - k,
    {
        if let Some(i) = find_component(entity, comps[k].id) {
            assert(entity@.1[i as int] == entity.components@[i as int]@);
            write_full_component(&comps[k], &entity.components[i], limits, writer)?;
        }
        k = k + 1;
    }
    Ok(())
}

fn write_create_entity(
    comps: &Vec<ComponentDef>,
    entity: &EntitySnapshot,
    limits: &CodecLimits,
    writer: &mut BitWriter,
) -> (r: CodecResult<()>)
    ensures
        final(writer).same_buffer(old(writer)),
        final(final(writer).target())@ == final(old(writer).target())@,
        match enc_created_entity(old(writer).written(), old(writer).capacity(), comps@, entity@, *limits) {
            Ok(w) => r is Ok && final(writer).written() == w,
            Err(e) => r == Err::<(), CodecError>(e),
        },
{
    if let Err(e) = writer.align_to_byte() {
        return Err(CodecError::Bitstream(e));
    }
    if let Err(e) = writer.write_u32_aligned(entity.id.raw()) {
        return Err(CodecError::Bitstream(e));
    }
    ensure_known_components(comps, entity)?;
    write_component_mask(comps, entity, writer)?;
    write_created_components(comps, entity, limits, writer)
}

/// Writes the create section body of a delta.
#[verifier::rlimit(30)]
pub fn encode_create_body(
    comps: &Vec<ComponentDef>,
    current: &[EntitySnapshot],
    creates: &Vec<usize>,
    limits: &CodecLimits,
    writer: &mut BitWriter,
) -> (r: CodecResult<()>)
    requires
        forall|k: int| 0 <= k < creates@.len() ==> creates@[k] < current@.len(),
    ensures
        final(writer).same_buffer(old(writer)),
        final(final(writer).target())@ == final(old(writer).target())@,
        match enc_delta_create_body(old(writer).written(), old(writer).capacity(), comps@, entities_view(current@), idx_nats(creates@), *limits) {
            Ok(w) => r is Ok && final(writer).written() == w,
            Err(e) => r == Err::<(), CodecError>(e),
        },
        r is Ok ==> final(writer).written().len() % 8 == 0,
{
    let count = creates.len();
    if count > limits.max_entities_create {
        return Err(
            CodecError::LimitsExceeded {
                kind: LimitKind::EntitiesCreate,
                limit: limits.max_entities_create,
                actual: count,
            },
        );
    }
    if let Err(e) = writer.align_to_byte() {
        return Err(CodecError::Bitstream(e));
    }
    if let Err(e) = writer.write_varu32(count as u32) {
        return Err(CodecError::Bitstream(e));
    }
    let ghost c = entities_view(current@);
    let ghost cs = idx_nats(creates@);
    let mut k: usize = 0;
    while k < count
        invariant
            count == creates@.len(),
            cs == idx_nats(creates@),
            c == entities_view(current@),
            k <= count,
            forall|m: int| 0 <= m < creates@.len() ==> creates@[m] < current@.len(),
            writer.same_buffer(old(writer)),
            final(writer.target())@ == final(old(writer).target())@,
            enc_delta_create_body(old(writer).written(), old(writer).capacity(), comps@, c, cs, *limits) == match enc_created(
                writer.written(),
                writer.capacity(),
                comps@,
                c,
                cs,
                *limits,
                k as nat,
            ) {
                Err(e) => Err(e),
                Ok(w3) => lift(w_align(w3, writer.capacity())),
            },
        decreases count - k,
    {
        let j = creates[k];
        assert(cs[k as int] == j as nat);
        assert(c[j as int] == current@[j as int]@);
        write_create_entity(comps, &current[j], limits, writer)?;
        k = k + 1;
    }
    match writer.align_to_byte() {
        Ok(()) => Ok(()),
        Err(e) => Err(CodecError::Bitstream(e)),
    }
}

// ---------------------------------------------------------------------------
// Masked update section.
/// Writing the bits `m[i..]`.
pub open spec fn enc_bits(w: Seq<bool>, cap: nat, m: Seq<bool>, i: nat) -> Result<Seq<bool>, CodecError>
    decreases m.len() - i,
{
    if i >= m.len() {
        Ok(w)
    } else {
        match lift(w_bit(w, cap, m[i as int])) {
            Ok(w1) => enc_bits(w1, cap, m, i + 1),
            Err(e) => Err(e),
        }
    }
}

/// Writing the values of the fields from `i` on whose mask bit is set.
pub open spec fn enc_masked_values(
    w: Seq<bool>,
    cap: nat,
    cid: ComponentId,
    fs: Seq<FieldDef>,
    cv: Seq<FieldValue>,
    m: Seq<bool>,
    i: nat,
) -> Result<Seq<bool>, CodecError>
    decreases fs.len() - i,
{
    if i >= fs.len() {
        Ok(w)
    } else if m[i as int] {
        match enc_field(w, cap, cid, fs[i as int], cv[i as int]) {
            Ok(w1) => enc_masked_values(w1, cap, cid, fs, cv, m, i + 1),
            Err(e) => Err(e),
        }
    } else {
        enc_masked_values(w, cap, cid, fs, cv, m, i + 1)
    }
}

/// First pass over the schema components of an updated entity: one bit per
/// component telling whether it changed; also gives those bits.
pub open spec fn upd_first(
    w: Seq<bool>,
    cap: nat,
    comps: Seq<ComponentDef>,
    bcs: Seq<ComponentV>,
    ccs: Seq<ComponentV>,
    limits: CodecLimits,
    k: nat,
) -> Result<(Seq<bool>, Seq<bool>), CodecError>
    decreases comps.len() - k,
{
    if k >= comps.len() {
        Ok((w, Seq::empty()))
    } else {
        let comp = comps[k as int];
        match (find_comp(bcs, comp.id), find_comp(ccs, comp.id)) {
            (Some(bi), Some(ci)) => match pair_check(comp, bcs[bi as int].1, ccs[ci as int].1, limits) {
                Some(e) => Err(e),
                None => match mask_from(comp.id, comp.fields@, bcs[bi as int].1, ccs[ci as int].1, 0) {
                    Err(e) => Err(e),
                    Ok(m) => {
                        let any = super::diff::count_true(m) > 0;
                        match lift(w_bit(w, cap, any)) {
                            Err(e) => Err(e),
                            Ok(w1) => match upd_first(w1, cap, comps, bcs, ccs, limits, k + 1) {
                                Err(e) => Err(e),
                                Ok((w2, flags)) => Ok((w2, seq![any] + flags)),
                            },
                        }
                    },
                },
            },
            (None, None) => match lift(w_bit(w, cap, false)) {
                Err(e) => Err(e),
                Ok(w1) => match upd_first(w1, cap, comps, bcs, ccs, limits, k + 1) {
                    Err(e) => Err(e),
                    Ok((w2, flags)) => Ok((w2, seq![false] + flags)),
                },
            },
            _ => Err(
                CodecError::InvalidMask {
                    kind: MaskKind::ComponentMask,
                    reason: MaskReason::ComponentPresenceMismatch { component: comp.id },
                },
            ),
        }
    }
}

/// Second pass: for each changed component from `k` on, its field mask and
/// the changed values.
pub open spec fn upd_second(
    w: Seq<bool>,
    cap: nat,
    comps: Seq<ComponentDef>,
    bcs: Seq<ComponentV>,
    ccs: Seq<ComponentV>,
    flags: Seq<bool>,
    limits: CodecLimits,
    k: nat,
) -> Result<Seq<bool>, CodecError>
    decreases comps.len() - k,
{
    if k >= comps.len() {
        Ok(w)
    } else {
        let comp = comps[k as int];
        match (find_comp(bcs, comp.id), find_comp(ccs, comp.id)) {
            (Some(bi), Some(ci)) => if comp.fields@.len() > limits.max_fields_per_component {
                Err(
                    CodecError::LimitsExceeded {
                        kind: LimitKind::FieldsPerComponent,
                        limit: limits.max_fields_per_component,
                        actual: comp.fields@.len() as usize,
                    },
                )
            } else if flags[k as int] {
                match mask_from(comp.id, comp.fields@, bcs[bi as int].1, ccs[ci as int].1, 0) {
                    Err(e) => Err(e),
                    Ok(m) => match enc_bits(w, cap, m, 0) {
                        Err(e) => Err(e),
                        Ok(w1) => match enc_masked_values(w1, cap, comp.id, comp.fields@, ccs[ci as int].1, m, 0) {
                            Err(e) => Err(e),
                            Ok(w2) => upd_second(w2, cap, comps, bcs, ccs, flags, limits, k + 1),
                        },
                    },
                }
            } else {
                upd_second(w, cap, comps, bcs, ccs, flags, limits, k + 1)
            },
            _ => upd_second(w, cap, comps, bcs, ccs, flags, limits, k + 1),
        }
    }
}

/// Writing the components of an updated entity.
pub open spec fn enc_update_components(
    w: Seq<bool>,
    cap: nat,
    comps: Seq<ComponentDef>,
    b: EntityV,
    c: EntityV,
    limits: CodecLimits,
) -> Result<Seq<bool>, CodecError> {
    match upd_first(w, cap, comps, b.1, c.1, limits, 0) {
        Err(e) => Err(e),
        Ok((w1, flags)) => upd_second(w1, cap, comps, b.1, c.1, flags, limits, 0),
    }
}

fn write_mask_bits(mask: &Vec<bool>, n: usize, writer: &mut BitWriter) -> (r: CodecResult<()>)
    requires
        n <= mask@.len(),
    ensures
        final(writer).same_buffer(old(writer)),
        final(final(writer).target())@ == final(old(writer).target())@,
        match enc_bits(old(writer).written(), old(writer).capacity(), mask@.take(n as int), 0) {
            Ok(w) => r is Ok && final(writer).written() == w,
            Err(e) => r == Err::<(), CodecError>(e),
        },
{
    let ghost m = mask@.take(n as int);
    let mut i: usize = 0;
    while i < n
        invariant
            n <= mask@.len(),
            m == mask@.take(n as int),
            i <= n,
            writer.same_buffer(old(writer)),
            final(writer.target())@ == final(old(writer).target())@,
            enc_bits(old(writer).written(), old(writer).capacity(), m, 0) == enc_bits(
                writer.written(),
                writer.capacity(),
                m,
                i as nat,
            ),
        decreases n - i,
    {
        if let Err(e) = writer.write_bit(mask[i]) {
            return Err(CodecError::Bitstream(e));
        }
        i = i + 1;
    }
    Ok(())
}

fn write_masked_values(
    cid: ComponentId,
    fields: &Vec<FieldDef>,
    values: &Vec<FieldValue>,
    mask: &Vec<bool>,
    writer: &mut BitWriter,
) -> (r: CodecResult<()>)
    requires
        fields@.len() == values@.len(),
        fields@.len() <= mask@.len(),
    ensures
        final(writer).same_buffer(old(writer)),
        final(final(writer).target())@ == final(old(writer).target())@,
        match enc_masked_values(old(writer).written(), old(writer).capacity(), cid, fields@, values@, mask@.take(fields@.len() as int), 0) {
            Ok(w) => r is Ok && final(writer).written() == w,
            Err(e) => r == Err::<(), CodecError>(e),
        },
{
    let n = fields.len();
    let ghost m = mask@.take(n as int);
    let mut i: usize = 0;
    while i < n
        invariant
            n == fields@.len(),
            n == values@.len(),
            n <= mask@.len(),
            m == mask@.take(n as int),
            i <= n,
            writer.same_buffer(old(writer)),
            final(writer.target())@ == final(old(writer).target())@,
            enc_masked_values(old(writer).written(), old(writer).capacity(), cid, fields@, values@, m, 0)
                == enc_masked_values(writer.written(), writer.capacity(), cid, fields@, values@, m, i as nat),
        decreases n - i,
    {
        if mask[i] {
            write_field_value(cid, fields[i], values[i], writer)?;
        }
        i = i + 1;
    }
    Ok(())
}

/// Component `m` is on both entities with matching field counts.
pub open spec fn flag_ok(comps: Seq<ComponentDef>, bcs: Seq<ComponentV>, ccs: Seq<ComponentV>, limits: CodecLimits, m: int) -> bool {
    match (find_comp(bcs, comps[m].id), find_comp(ccs, comps[m].id)) {
        (Some(bi), Some(ci)) => pair_check(comps[m], bcs[bi as int].1, ccs[ci as int].1, limits) is None,
        _ => false,
    }
}

fn write_update_components(
    comps: &Vec<ComponentDef>,
    baseline: &EntitySnapshot,
    current: &EntitySnapshot,
    limits: &CodecLimits,
    scratch: &mut CodecScratch,
    writer: &mut BitWriter,
) -> (r: CodecResult<()>)
    ensures
        final(writer).same_buffer(old(writer)),
        final(final(writer).target())@ == final(old(writer).target())@,
        match enc_update_components(old(writer).written(), old(writer).capacity(), comps@, baseline@, current@, *limits) {
            Ok(w) => r is Ok && final(writer).written() == w,
            Err(e) => r == Err::<(), CodecError>(e),
        },
{
    let n = comps.len();
    let mut flags: Vec<bool> = Vec::new();
    let mut k: usize = 0;
    let ghost w0 = writer.written();
    while k < n
        invariant
            n == comps@.len(),
            k <= n,
            flags@.len() == k,
            forall|m: int| 0 <= m < k ==> #[trigger] flags@[m] ==> flag_ok(comps@, baseline@.1, current@.1, *limits, m),
            writer.same_buffer(old(writer)),
            final(writer.target())@ == final(old(writer).target())@,
            w0 == old(writer).written(),
            upd_first(w0, writer.capacity(), comps@, baseline@.1, current@.1, *limits, 0) == match upd_first(
                writer.written(),
                writer.capacity(),
                comps@,
                baseline@.1,
                current@.1,
                *limits,
                k as nat,
            ) {
                Err(e) => Err(e),
                Ok((w2, rest)) => Ok((w2, flags@ + rest)),
            },
        decreases n - k,
    {
        let comp = &comps[k];
        let ghost before = flags@;
        match (find_component(baseline, comp.id), find_component(current, comp.id)) {
            (Some(bi), Some(ci)) => {
                let b = &baseline.components[bi];
                let c = &current.components[ci];
                assert(baseline@.1[bi as int] == b@);
                assert(current@.1[ci as int] == c@);
                check_pair(comp, b, c, limits)?;
                pair_mask(comp, b, c, scratch)?;
                let any = super::diff::count_set(&scratch.field_mask, comp.fields.len()) > 0;
                if let Err(e) = writer.write_bit(any) {
                    return Err(CodecError::Bitstream(e));
                }
                flags.push(any);
                proof {
                    let nxt = upd_first(writer.written(), writer.capacity(), comps@, baseline@.1, current@.1, *limits, (k + 1) as nat);
                    if let Ok((w2, rest)) = nxt {
                        assert(before + (seq![any] + rest) =~= flags@ + rest);
                    }
                }
            },
            (None, None) => {
                if let Err(e) = writer.write_bit(false) {
                    return Err(CodecError::Bitstream(e));
                }
                flags.push(false);
                proof {
                    let nxt = upd_first(writer.written(), writer.capacity(), comps@, baseline@.1, current@.1, *limits, (k + 1) as nat);
                    if let Ok((w2, rest)) = nxt {
                        assert(before + (seq![false] + rest) =~= flags@ + rest);
                    }
                }
            },
            _ => {
                return Err(
                    CodecError::InvalidMask {
                        kind: MaskKind::ComponentMask,
                        reason: MaskReason::ComponentPresenceMismatch { component: comp.id },
                    },
                );
            },
        }
        k = k + 1;
    }
    assert(flags@ + Seq::<bool>::empty() =~= flags@);
    let ghost fl = flags@;
    let mut k: usize = 0;
    while k < n
        invariant
            n == comps@.len(),
            k <= n,
            flags@ == fl,
            fl.len() == n,
            forall|m: int| 0 <= m < n ==> #[trigger] fl[m] ==> flag_ok(comps@, baseline@.1, current@.1, *limits, m),
            writer.same_buffer(old(writer)),
            final(writer.target())@ == final(old(writer).target())@,
            enc_update_components(old(writer).written(), old(writer).capacity(), comps@, baseline@, current@, *limits)
                == upd_second(writer.written(), writer.capacity(), comps@, baseline@.1, current@.1, fl, *limits, k as nat),
        decreases n - k,
    {
        let comp = &comps[k];
        match (find_component(baseline, comp.id), find_component(current, comp.id)) {
            (Some(bi), Some(ci)) => {
                let b = &baseline.components[bi];
                let c = &current.components[ci];
                assert(baseline@.1[bi as int] == b@);
                assert(current@.1[ci as int] == c@);
                if comp.fields.len() > limits.max_fields_per_component {
                    return Err(
                        CodecError::LimitsExceeded {
                            kind: LimitKind::FieldsPerComponent,
                            limit: limits.max_fields_per_component,
                            actual: comp.fields.len(),
                        },
                    );
                }
                if flags[k] {
                    assert(flag_ok(comps@, baseline@.1, current@.1, *limits, k as int));
                    pair_mask(comp, b, c, scratch)?;
                    write_mask_bits(&scratch.field_mask, comp.fields.len(), writer)?;
                    write_masked_values(comp.id, &comp.fields, &c.fields, &scratch.field_mask, writer)?;
                }
            },
            _ => {},
        }
        k = k + 1;
    }
    Ok(())
}

/// Writing the updated entities among the matched pairs from `k` on.
pub open spec fn enc_masked_pairs(
    w: Seq<bool>,
    cap: nat,
    comps: Seq<ComponentDef>,
    b: Seq<EntityV>,
    c: Seq<EntityV>,
    pairs: Seq<(nat, nat)>,
    limits: CodecLimits,
    k: nat,
) -> Result<Seq<bool>, CodecError>
    decreases pairs.len() - k,
{
    if k >= pairs.len() {
        Ok(w)
    } else {
        let be = b[pairs[k as int].0 as int];
        let ce = c[pairs[k as int].1 as int];
        match has_updates(comps, be, ce, limits) {
            Err(e) => Err(e),
            Ok(false) => enc_masked_pairs(w, cap, comps, b, c, pairs, limits, k + 1),
            Ok(true) => match w_align(w, cap) {
                Err(e) => Err(CodecError::Bitstream(e)),
                Ok(w1) => match w_le(w1, cap, ce.0@ as u64, 4) {
                    Err(e) => Err(CodecError::Bitstream(e)),
                    Ok(w2) => match presence_error(comps, be.1, ce.1, 0) {
                        Some(e) => Err(e),
                        None => match enc_update_components(w2, cap, comps, be, ce, limits) {
                            Err(e) => Err(e),
                            Ok(w3) => enc_masked_pairs(w3, cap, comps, b, c, pairs, limits, k + 1),
                        },
                    },
                },
            },
        }
    }
}

/// The body of a masked update section.
pub open spec fn enc_masked_body(
    w: Seq<bool>,
    cap: nat,
    comps: Seq<ComponentDef>,
    b: Seq<EntityV>,
    c: Seq<EntityV>,
    pairs: Seq<(nat, nat)>,
    count: nat,
    limits: CodecLimits,
) -> Result<Seq<bool>, CodecError> {
    if count > limits.max_entities_update {
        Err(
            CodecError::LimitsExceeded {
                kind: LimitKind::EntitiesUpdate,
                limit: limits.max_entities_update,
                actual: count as usize,
            },
        )
    } else {
        match w_align(w, cap) {
            Err(e) => Err(CodecError::Bitstream(e)),
            Ok(w1) => match w_varu32(w1, cap, count as u32) {
                Err(e) => Err(CodecError::Bitstream(e)),
                Ok(w2) => match enc_masked_pairs(w2, cap, comps, b, c, pairs, limits, 0) {
                    Err(e) => Err(e),
                    Ok(w3) => lift(w_align(w3, cap)),
                },
            },
        }
    }
}

/// One entity of a masked update section: nothing when it has no changes,
/// else its id and changed components.
pub open spec fn masked_entity(
    w: Seq<bool>,
    cap: nat,
    comps: Seq<ComponentDef>,
    be: EntityV,
    ce: EntityV,
    limits: CodecLimits,
) -> Result<Seq<bool>, CodecError> {
    match has_updates(comps, be, ce, limits) {
        Err(e) => Err(e),
        Ok(false) => Ok(w),
        Ok(true) => match w_align(w, cap) {
            Err(e) => Err(CodecError::Bitstream(e)),
            Ok(w1) => match w_le(w1, cap, ce.0@ as u64, 4) {
                Err(e) => Err(CodecError::Bitstream(e)),
                Ok(w2) => match presence_error(comps, be.1, ce.1, 0) {
                    Some(e) => Err(e),
                    None => enc_update_components(w2, cap, comps, be, ce, limits),
                },
            },
        },
    }
}

fn write_masked_entity(
    comps: &Vec<ComponentDef>,
    be: &EntitySnapshot,
    ce: &EntitySnapshot,
    limits: &CodecLimits,
    scratch: &mut CodecScratch,
    writer: &mut BitWriter,
) -> (r: CodecResult<()>)
    ensures
        final(writer).same_buffer(old(writer)),
        final(final(writer).target())@ == final(old(writer).target())@,
        match masked_entity(old(writer).written(), old(writer).capacity(), comps@, be@, ce@, *limits) {
            Ok(w) => r is Ok && final(writer).written() == w,
            Err(e) => r == Err::<(), CodecError>(e),
        },
{
    if entity_has_updates(comps, be, ce, limits)? {
        if let Err(e) = writer.align_to_byte() {
            return Err(CodecError::Bitstream(e));
        }
        if let Err(e) = writer.write_u32_aligned(ce.id.raw()) {
            return Err(CodecError::Bitstream(e));
        }
        ensure_component_presence_matches(comps, be, ce)?;
        write_update_components(comps, be, ce, limits, scratch, writer)?;
    }
    Ok(())
}

/// Writes the masked update section body.
#[verifier::rlimit(30)]
pub fn encode_update_body_masked(
    comps: &Vec<ComponentDef>,
    baseline: &[EntitySnapshot],
    current: &[EntitySnapshot],
    pairs: &Vec<(usize, usize)>,
    update_count: usize,
    limits: &CodecLimits,
    scratch: &mut CodecScratch,
    writer: &mut BitWriter,
) -> (r: CodecResult<()>)
    requires
        forall|k: int| 0 <= k < pairs@.len() ==> pairs@[k].0 < baseline@.len() && pairs@[k].1 < current@.len(),
    ensures
        final(writer).same_buffer(old(writer)),
        final(final(writer).target())@ == final(old(writer).target())@,
        match enc_masked_body(
            old(writer).written(),
            old(writer).capacity(),
            comps@,
            entities_view(baseline@),
            entities_view(current@),
            super::diff::nat_pairs(pairs@),
            update_count as nat,
            *limits,
        ) {
            Ok(w) => r is Ok && final(writer).written() == w,
            Err(e) => r == Err::<(), CodecError>(e),
        },
        r is Ok ==> final(writer).written().len() % 8 == 0,
{
    if update_count > limits.max_entities_update {
        return Err(
            CodecError::LimitsExceeded {
                kind: LimitKind::EntitiesUpdate,
                limit: limits.max_entities_update,
                actual: update_count,
            },
        );
    }
    if let Err(e) = writer.align_to_byte() {
        return Err(CodecError::Bitstream(e));
    }
    if let Err(e) = writer.write_varu32(update_count as u32) {
        return Err(CodecError::Bitstream(e));
    }
    let ghost b = entities_view(baseline@);
    let ghost c = entities_view(current@);
    let ghost ps = super::diff::nat_pairs(pairs@);
    let n = pairs.len();
    let mut k: usize = 0;
    while k < n
        invariant
            n == pairs@.len(),
            ps == super::diff::nat_pairs(pairs@),
            b == entities_view(baseline@),
            c == entities_view(current@),
            k <= n,
            forall|m: int| 0 <= m < pairs@.len() ==> pairs@[m].0 < baseline@.len() && pairs@[m].1 < current@.len(),
            writer.same_buffer(old(writer)),
            final(writer.target())@ == final(old(writer).target())@,
            enc_masked_body(old(writer).written(), old(writer).capacity(), comps@, b, c, ps, update_count as nat, *limits)
                == match enc_masked_pairs(writer.written(), writer.capacity(), comps@, b, c, ps, *limits, k as nat) {
                Err(e) => Err(e),
                Ok(w3) => lift(w_align(w3, writer.capacity())),
            },
        decreases n - k,
    {
        let (bi, ci) = pairs[k];
        assert(ps[k as int] == (bi as nat, ci as nat));
        assert(b[bi as int] == baseline@[bi as int]@);
        assert(c[ci as int] == current@[ci as int]@);
        write_masked_entity(comps, &baseline[bi], &current[ci], limits, scratch, writer)?;
        k = k + 1;
    }
    match writer.align_to_byte() {
        Ok(()) => Ok(()),
        Err(e) => Err(CodecError::Bitstream(e)),
    }
}

} // verus!
