//! Decoding the sections of a delta snapshot.
use super::error::{CodecError, CodecResult, LimitKind, MaskKind, MaskReason};
use super::limits::CodecLimits;
use super::model::{dec_field, r_align, r_bits, r_le, r_varu32, rcap, read_field_value, FieldValue};
use super::snapshot::{
    components_view, dec_full_component, dec_mask, decode_full_component, ensure_known_components,
    entities_view, read_mask, unknown_from, ComponentSnapshot, ComponentV, EntitySnapshot, EntityV,
};
use super::types::{entity_id_of, EntityId, SnapshotTick};
use crate::bitstream::BitReader;
use crate::schema::{ComponentDef, ComponentId, FieldDef};
use crate::wire::SectionTag;
use vstd::prelude::*;

verus! {

/// Changed fields of one component of an updated entity: field index and value.
#[derive(Debug, PartialEq, Eq)]
pub struct DeltaUpdateComponent {
    pub id: ComponentId,
    pub fields: Vec<(usize, FieldValue)>,
}

/// An updated entity and its changed components.
#[derive(Debug, PartialEq, Eq)]
pub struct DeltaUpdateEntity {
    pub id: EntityId,
    pub components: Vec<DeltaUpdateComponent>,
}

/// A decoded delta: destroyed ids, created entities and updates.
#[derive(Debug, PartialEq, Eq)]
pub struct DeltaDecoded {
    pub tick: SnapshotTick,
    pub baseline_tick: SnapshotTick,
    pub destroys: Vec<EntityId>,
    pub creates: Vec<EntitySnapshot>,
    pub updates: Vec<DeltaUpdateEntity>,
}

/// A component update as a value.
pub type UpdCompV = (ComponentId, Seq<(usize, FieldValue)>);

/// An entity update as a value.
pub type UpdEntV = (EntityId, Seq<UpdCompV>);

impl View for DeltaUpdateComponent {
    type V = UpdCompV;

    open spec fn view(&self) -> UpdCompV {
        (self.id, self.fields@)
    }
}

/// Component updates as values.
pub open spec fn upd_comps_view(cs: Seq<DeltaUpdateComponent>) -> Seq<UpdCompV> {
    cs.map_values(|c: DeltaUpdateComponent| c@)
}

impl View for DeltaUpdateEntity {
    type V = UpdEntV;

    open spec fn view(&self) -> UpdEntV {
        (self.id, upd_comps_view(self.components@))
    }
}

/// Entity updates as values.
pub open spec fn upd_entities_view(es: Seq<DeltaUpdateEntity>) -> Seq<UpdEntV> {
    es.map_values(|e: DeltaUpdateEntity| e@)
}

/// A trailing-data check after a section body: align, then nothing may remain.
pub open spec fn finish_section(d: Seq<u8>, p: nat, tag: SectionTag) -> Option<CodecError> {
    match r_align(d, p) {
        Err(e) => Some(CodecError::Bitstream(e)),
        Ok(p1) => if rcap(d) - p1 != 0 {
            Some(CodecError::TrailingSectionData { section: tag, remaining_bits: (rcap(d) - p1) as usize })
        } else {
            None
        },
    }
}

fn finish_reader(reader: &mut BitReader, tag: SectionTag) -> (r: CodecResult<()>)
    ensures
        match finish_section(old(reader).data(), old(reader).pos(), tag) {
            Some(e) => r == Err::<(), CodecError>(e),
            None => r is Ok,
        },
{
    if let Err(e) = reader.align_to_byte() {
        return Err(CodecError::Bitstream(e));
    }
    let remaining = reader.bits_remaining();
    if remaining != 0 {
        return Err(CodecError::TrailingSectionData { section: tag, remaining_bits: remaining });
    }
    Ok(())
}

/// The section-size check every decoder starts with.
pub open spec fn size_error(d: Seq<u8>, limits: CodecLimits) -> Option<CodecError> {
    if d.len() > limits.max_section_bytes {
        Some(
            CodecError::LimitsExceeded {
                kind: LimitKind::SectionBytes,
                limit: limits.max_section_bytes,
                actual: d.len() as usize,
            },
        )
    } else {
        None
    }
}

/// Reading the aligned leading count of a section body.
pub open spec fn dec_count(d: Seq<u8>) -> Result<(u32, nat), CodecError> {
    match r_align(d, 0) {
        Err(e) => Err(CodecError::Bitstream(e)),
        Ok(p1) => match r_varu32(d, p1) {
            Err(e) => Err(CodecError::Bitstream(e)),
            Ok((n, p2)) => Ok((n, p2)),
        },
    }
}

fn read_count(reader: &mut BitReader) -> (r: CodecResult<u32>)
    requires
        old(reader).pos() == 0,
    ensures
        final(reader).data() == old(reader).data(),
        match dec_count(old(reader).data()) {
            Ok((n, p)) => r == Ok::<u32, CodecError>(n) && final(reader).pos() == p,
            Err(e) => r == Err::<u32, CodecError>(e),
        },
{
    if let Err(e) = reader.align_to_byte() {
        return Err(CodecError::Bitstream(e));
    }
    match reader.read_varu32() {
        Ok(n) => Ok(n),
        Err(e) => Err(CodecError::Bitstream(e)),
    }
}

// ---------------------------------------------------------------------------
// Destroy section.
/// Reading destroyed ids `k..count`, checking that they increase.
pub open spec fn dec_destroy_ids(d: Seq<u8>, p: nat, count: nat, k: nat, prev: u32, acc: Seq<EntityId>) -> Result<
    (Seq<EntityId>, nat),
    CodecError,
>
    decreases count - k,
{
    if k >= count {
        Ok((acc, p))
    } else {
        match r_align(d, p) {
            Err(e) => Err(CodecError::Bitstream(e)),
            Ok(p1) => match r_le(d, p1, 4) {
                Err(e) => Err(CodecError::Bitstream(e)),
                Ok((id, p2)) => if k > 0 && id <= prev {
                    Err(CodecError::InvalidEntityOrder { previous: prev, current: id as u32 })
                } else {
                    dec_destroy_ids(d, p2, count, k + 1, id as u32, acc.push(entity_id_of(id as u32)))
                },
            },
        }
    }
}

/// Decoding a destroy section body.
pub open spec fn dec_destroy_section(d: Seq<u8>, limits: CodecLimits) -> Result<Seq<EntityId>, CodecError> {
    if size_error(d, limits) is Some {
        Err(size_error(d, limits)->Some_0)
    } else {
        match dec_count(d) {
            Err(e) => Err(e),
            Ok((count, p)) => if count > limits.max_entities_destroy {
                Err(
                    CodecError::LimitsExceeded {
                        kind: LimitKind::EntitiesDestroy,
                        limit: limits.max_entities_destroy,
                        actual: count as usize,
                    },
                )
            } else {
                match dec_destroy_ids(d, p, count as nat, 0, 0, Seq::empty()) {
                    Err(e) => Err(e),
                    Ok((ids, p2)) => match finish_section(d, p2, SectionTag::EntityDestroy) {
                        Some(e) => Err(e),
                        None => Ok(ids),
                    },
                }
            },
        }
    }
}

/// Decodes a destroy section body.
pub fn decode_destroy_section(body: &[u8], limits: &CodecLimits) -> (r: CodecResult<Vec<EntityId>>)
    ensures
        match dec_destroy_section(body@, *limits) {
            Ok(ids) => r is Ok && r->Ok_0@ == ids,
            Err(e) => r == Err::<Vec<EntityId>, CodecError>(e),
        },
{
    if body.len() > limits.max_section_bytes {
        return Err(
            CodecError::LimitsExceeded {
                kind: LimitKind::SectionBytes,
                limit: limits.max_section_bytes,
                actual: body.len(),
            },
        );
    }
    let mut reader = BitReader::new(body);
    let count = read_count(&mut reader)? as usize;
    if count > limits.max_entities_destroy {
        return Err(
            CodecError::LimitsExceeded {
                kind: LimitKind::EntitiesDestroy,
                limit: limits.max_entities_destroy,
                actual: count,
            },
        );
    }
    let ghost d = body@;
    let ghost p0 = reader.pos();
    let mut ids: Vec<EntityId> = Vec::new();
    let mut prev: u32 = 0;
    let mut k: usize = 0;
    while k < count
        invariant
            k <= count,
            reader.data() == d,
            d == body@,
            dec_destroy_section(d, *limits) == match dec_destroy_ids(d, p0, count as nat, 0, 0, Seq::empty()) {
                Err(e) => Err(e),
                Ok((ids, p2)) => match finish_section(d, p2, SectionTag::EntityDestroy) {
                    Some(e) => Err(e),
                    None => Ok(ids),
                },
            },
            dec_destroy_ids(d, p0, count as nat, 0, 0, Seq::empty()) == dec_destroy_ids(
                d,
                reader.pos(),
                count as nat,
                k as nat,
                prev,
                ids@,
            ),
        decreases count - k,
    {
        if let Err(e) = reader.align_to_byte() {
            return Err(CodecError::Bitstream(e));
        }
        let id = match reader.read_u32_aligned() {
            Ok(v) => v,
            Err(e) => {
                return Err(CodecError::Bitstream(e));
            },
        };
        if k > 0 && id <= prev {
            return Err(CodecError::InvalidEntityOrder { previous: prev, current: id });
        }
        ids.push(EntityId::new(id));
        prev = id;
        k = k + 1;
    }
    finish_reader(&mut reader, SectionTag::EntityDestroy)?;
    Ok(ids)
}

// ---------------------------------------------------------------------------
// Create section.
/// Reading the present components of one created entity from schema index `k`.
pub open spec fn dec_delta_comps(
    d: Seq<u8>,
    p: nat,
    comps: Seq<ComponentDef>,
    mask: Seq<bool>,
    limits: CodecLimits,
    k: nat,
    acc: Seq<ComponentV>,
) -> Result<(Seq<ComponentV>, nat), CodecError>
    decreases comps.len() - k,
{
    if k >= comps.len() {
        Ok((acc, p))
    } else if !mask[k as int] {
        dec_delta_comps(d, p, comps, mask, limits, k + 1, acc)
    } else {
        match dec_full_component(d, p, comps[k as int], limits) {
            Err(e) => Err(e),
            Ok((vs, p1)) => dec_delta_comps(d, p1, comps, mask, limits, k + 1, acc.push((comps[k as int].id, vs))),
        }
    }
}

/// Reading created entities `k..count`.
pub open spec fn dec_delta_entities(
    d: Seq<u8>,
    p: nat,
    comps: Seq<ComponentDef>,
    limits: CodecLimits,
    count: nat,
    k: nat,
    prev: u32,
    acc: Seq<EntityV>,
) -> Result<(Seq<EntityV>, nat), CodecError>
    decreases count - k,
{
    if k >= count {
        Ok((acc, p))
    } else {
        match r_align(d, p) {
            Err(e) => Err(CodecError::Bitstream(e)),
            Ok(p1) => match r_le(d, p1, 4) {
                Err(e) => Err(CodecError::Bitstream(e)),
                Ok((id, p2)) => if k > 0 && id <= prev {
                    Err(CodecError::InvalidEntityOrder { previous: prev, current: id as u32 })
                } else {
                    match dec_mask(d, p2, comps.len(), MaskKind::ComponentMask) {
                        Err(e) => Err(e),
                        Ok((mask, p3)) => match dec_delta_comps(d, p3, comps, mask, limits, 0, Seq::empty()) {
                            Err(e) => Err(e),
                            Ok((cs, p4)) => match unknown_from(comps, cs, 0) {
                                Some(e) => Err(e),
                                None => dec_delta_entities(
                                    d,
                                    p4,
                                    comps,
                                    limits,
                                    count,
                                    k + 1,
                                    id as u32,
                                    acc.push((entity_id_of(id as u32), cs)),
                                ),
                            },
                        },
                    }
                },
            },
        }
    }
}

/// Decoding a delta's create section body.
pub open spec fn dec_delta_create_section(d: Seq<u8>, comps: Seq<ComponentDef>, limits: CodecLimits) -> Result<
    Seq<EntityV>,
    CodecError,
> {
    if size_error(d, limits) is Some {
        Err(size_error(d, limits)->Some_0)
    } else {
        match dec_count(d) {
            Err(e) => Err(e),
            Ok((count, p)) => if count > limits.max_entities_create {
                Err(
                    CodecError::LimitsExceeded {
                        kind: LimitKind::EntitiesCreate,
                        limit: limits.max_entities_create,
                        actual: count as usize,
                    },
                )
            } else {
                match dec_delta_entities(d, p, comps, limits, count as nat, 0, 0, Seq::empty()) {
                    Err(e) => Err(e),
                    Ok((es, p2)) => match finish_section(d, p2, SectionTag::EntityCreate) {
                        Some(e) => Err(e),
                        None => Ok(es),
                    },
                }
            },
        }
    }
}

fn decode_created_components(
    comps: &Vec<ComponentDef>,
    mask: &Vec<bool>,
    reader: &mut BitReader,
    limits: &CodecLimits,
) -> (r: CodecResult<Vec<ComponentSnapshot>>)
    requires
        mask@.len() == comps@.len(),
    ensures
        final(reader).data() == old(reader).data(),
        match dec_delta_comps(old(reader).data(), old(reader).pos(), comps@, mask@, *limits, 0, Seq::empty()) {
            Ok((cs, p)) => r is Ok && components_view(r->Ok_0@) == cs && final(reader).pos() == p,
            Err(e) => r == Err::<Vec<ComponentSnapshot>, CodecError>(e),
        },
{
    let n = comps.len();
    let mut out: Vec<ComponentSnapshot> = Vec::new();
    let mut k: usize = 0;
    assert(components_view(out@) =~= Seq::<ComponentV>::empty());
    while k < n
        invariant
            n == comps@.len(),
            n == mask@.len(),
            k <= n,
            reader.data() == old(reader).data(),
            dec_delta_comps(old(reader).data(), old(reader).pos(), comps@, mask@, *limits, 0, Seq::empty())
                == dec_delta_comps(reader.data(), reader.pos(), comps@, mask@, *limits, k as nat, components_view(out@)),
        decreases n - k,
    {
        if mask[k] {
            let fields = decode_full_component(&comps[k], reader, limits)?;
            let c = ComponentSnapshot { id: comps[k].id, fields };
            let ghost before = out@;
            out.push(c);
            proof {
                assert(components_view(out@) =~= components_view(before).push(c@));
            }
        }
        k = k + 1;
    }
    Ok(out)
}

/// Decodes a delta's create section body.
pub fn decode_delta_create_section(comps: &Vec<ComponentDef>, body: &[u8], limits: &CodecLimits) -> (r:
    CodecResult<Vec<EntitySnapshot>>)
    ensures
        match dec_delta_create_section(body@, comps@, *limits) {
            Ok(es) => r is Ok && entities_view(r->Ok_0@) == es,
            Err(e) => r == Err::<Vec<EntitySnapshot>, CodecError>(e),
        },
{
    broadcast use super::types::lemma_entity_id_of;
    if body.len() > limits.max_section_bytes {
        return Err(
            CodecError::LimitsExceeded {
                kind: LimitKind::SectionBytes,
                limit: limits.max_section_bytes,
                actual: body.len(),
            },
        );
    }
    let mut reader = BitReader::new(body);
    let count = read_count(&mut reader)? as usize;
    if count > limits.max_entities_create {
        return Err(
            CodecError::LimitsExceeded {
                kind: LimitKind::EntitiesCreate,
                limit: limits.max_entities_create,
                actual: count,
            },
        );
    }
    let ghost d = body@;
    let ghost p0 = reader.pos();
    let mut entities: Vec<EntitySnapshot> = Vec::new();
    let mut prev: u32 = 0;
    let mut k: usize = 0;
    assert(entities_view(entities@) =~= Seq::<EntityV>::empty());
    while k < count
        invariant
            k <= count,
            reader.data() == d,
            d == body@,
            dec_delta_create_section(d, comps@, *limits) == match dec_delta_entities(d, p0, comps@, *limits, count as nat, 0, 0, Seq::empty()) {
                Err(e) => Err(e),
                Ok((es, p2)) => match finish_section(d, p2, SectionTag::EntityCreate) {
                    Some(e) => Err(e),
                    None => Ok(es),
                },
            },
            dec_delta_entities(d, p0, comps@, *limits, count as nat, 0, 0, Seq::empty()) == dec_delta_entities(
                d,
                reader.pos(),
                comps@,
                *limits,
                count as nat,
                k as nat,
                prev,
                entities_view(entities@),
            ),
        decreases count - k,
    {
        if let Err(e) = reader.align_to_byte() {
            return Err(CodecError::Bitstream(e));
        }
        let id = match reader.read_u32_aligned() {
            Ok(v) => v,
            Err(e) => {
                return Err(CodecError::Bitstream(e));
            },
        };
        if k > 0 && id <= prev {
            return Err(CodecError::InvalidEntityOrder { previous: prev, current: id });
        }
        let mask = read_mask(&mut reader, comps.len(), MaskKind::ComponentMask)?;
        let components = decode_created_components(comps, &mask, &mut reader, limits)?;
        let e = EntitySnapshot { id: EntityId::new(id), components };
        ensure_known_components(comps, &e)?;
        let ghost before = entities@;
        entities.push(e);
        proof {
            assert(entities_view(entities@) =~= entities_view(before).push(e@));
        }
        prev = id;
        k = k + 1;
    }
    finish_reader(&mut reader, SectionTag::EntityCreate)?;
    Ok(entities)
}

// ---------------------------------------------------------------------------
// Masked update section.
/// Reading the changed values of fields `k..` whose mask bit is set.
pub open spec fn dec_upd_values(
    d: Seq<u8>,
    p: nat,
    cid: ComponentId,
    fs: Seq<FieldDef>,
    mask: Seq<bool>,
    k: nat,
    acc: Seq<(usize, FieldValue)>,
) -> Result<(Seq<(usize, FieldValue)>, nat), CodecError>
    decreases fs.len() - k,
{
    if k >= fs.len() {
        Ok((acc, p))
    } else if !mask[k as int] {
        dec_upd_values(d, p, cid, fs, mask, k + 1, acc)
    } else {
        match dec_field(d, p, cid, fs[k as int]) {
            Err(e) => Err(e),
            Ok((v, p1)) => dec_upd_values(d, p1, cid, fs, mask, k + 1, acc.push((k as usize, v))),
        }
    }
}

/// Decoding one changed component of a masked update.
pub open spec fn dec_upd_component(d: Seq<u8>, p: nat, c: ComponentDef, limits: CodecLimits) -> Result<
    (Seq<(usize, FieldValue)>, nat),
    CodecError,
> {
    let n = c.fields@.len();
    if n > limits.max_fields_per_component {
        Err(
            CodecError::LimitsExceeded {
                kind: LimitKind::FieldsPerComponent,
                limit: limits.max_fields_per_component,
                actual: n as usize,
            },
        )
    } else {
        match dec_mask(d, p, n, MaskKind::FieldMask { component: c.id }) {
            Err(e) => Err(e),
            Ok((mask, p1)) => if !mask.contains(true) {
                Err(
                    CodecError::InvalidMask {
                        kind: MaskKind::FieldMask { component: c.id },
                        reason: MaskReason::EmptyFieldMask { component: c.id },
                    },
                )
            } else {
                dec_upd_values(d, p1, c.id, c.fields@, mask, 0, Seq::empty())
            },
        }
    }
}

fn any_set(mask: &Vec<bool>) -> (r: bool)
    ensures
        r == mask@.contains(true),
{
    let n = mask.len();
    let mut k: usize = 0;
    while k < n
        invariant
            n == mask@.len(),
            k <= n,
            forall|m: int| 0 <= m < k ==> !mask@[m],
        decreases n - k,
    {
        if mask[k] {
            assert(mask@[k as int] == true);
            return true;
        }
        k = k + 1;
    }
    false
}

/// Decodes the changed fields of one component of a masked update.
pub fn decode_update_component(component: &ComponentDef, reader: &mut BitReader, limits: &CodecLimits) -> (r:
    CodecResult<Vec<(usize, FieldValue)>>)
    ensures
        final(reader).data() == old(reader).data(),
        match dec_upd_component(old(reader).data(), old(reader).pos(), *component, *limits) {
            Ok((fs, p)) => r is Ok && r->Ok_0@ == fs && final(reader).pos() == p,
            Err(e) => r == Err::<Vec<(usize, FieldValue)>, CodecError>(e),
        },
{
    let n = component.fields.len();
    if n > limits.max_fields_per_component {
        return Err(
            CodecError::LimitsExceeded {
                kind: LimitKind::FieldsPerComponent,
                limit: limits.max_fields_per_component,
                actual: n,
            },
        );
    }
    let mask = read_mask(reader, n, MaskKind::FieldMask { component: component.id })?;
    if !any_set(&mask) {
        return Err(
            CodecError::InvalidMask {
                kind: MaskKind::FieldMask { component: component.id },
                reason: MaskReason::EmptyFieldMask { component: component.id },
            },
        );
    }
    let ghost p1 = reader.pos();
    let mut fields: Vec<(usize, FieldValue)> = Vec::new();
    let mut k: usize = 0;
    while k < n
        invariant
            n == component.fields@.len(),
            n == mask@.len(),
            k <= n,
            reader.data() == old(reader).data(),
            dec_upd_component(old(reader).data(), old(reader).pos(), *component, *limits) == dec_upd_values(
                old(reader).data(),
                p1,
                component.id,
                component.fields@,
                mask@,
                0,
                Seq::empty(),
            ),
            dec_upd_values(reader.data(), p1, component.id, component.fields@, mask@, 0, Seq::empty())
                == dec_upd_values(reader.data(), reader.pos(), component.id, component.fields@, mask@, k as nat, fields@),
        decreases n - k,
    {
        if mask[k] {
            let v = read_field_value(component.id, component.fields[k], reader)?;
            fields.push((k, v));
        }
        k = k + 1;
    }
    Ok(fields)
}

/// Reading the changed components of one updated entity from schema index `k`.
pub open spec fn dec_upd_comps(
    d: Seq<u8>,
    p: nat,
    comps: Seq<ComponentDef>,
    mask: Seq<bool>,
    limits: CodecLimits,
    k: nat,
    acc: Seq<UpdCompV>,
) -> Result<(Seq<UpdCompV>, nat), CodecError>
    decreases comps.len() - k,
{
    if k >= comps.len() {
        Ok((acc, p))
    } else if !mask[k as int] {
        dec_upd_comps(d, p, comps, mask, limits, k + 1, acc)
    } else {
        match dec_upd_component(d, p, comps[k as int], limits) {
            Err(e) => Err(e),
            Ok((fs, p1)) => dec_upd_comps(d, p1, comps, mask, limits, k + 1, acc.push((comps[k as int].id, fs))),
        }
    }
}

/// Reading updated entities `k..count` of a masked update section.
pub open spec fn dec_upd_entities(
    d: Seq<u8>,
    p: nat,
    comps: Seq<ComponentDef>,
    limits: CodecLimits,
    count: nat,
    k: nat,
    prev: u32,
    acc: Seq<UpdEntV>,
) -> Result<(Seq<UpdEntV>, nat), CodecError>
    decreases count - k,
{
    if k >= count {
        Ok((acc, p))
    } else {
        match r_align(d, p) {
            Err(e) => Err(CodecError::Bitstream(e)),
            Ok(p1) => match r_le(d, p1, 4) {
                Err(e) => Err(CodecError::Bitstream(e)),
                Ok((id, p2)) => if k > 0 && id <= prev {
                    Err(CodecError::InvalidEntityOrder { previous: prev, current: id as u32 })
                } else {
                    match dec_mask(d, p2, comps.len(), MaskKind::ComponentMask) {
                        Err(e) => Err(e),
                        Ok((mask, p3)) => match dec_upd_comps(d, p3, comps, mask, limits, 0, Seq::empty()) {
                            Err(e) => Err(e),
                            Ok((cs, p4)) => dec_upd_entities(
                                d,
                                p4,
                                comps,
                                limits,
                                count,
                                k + 1,
                                id as u32,
                                acc.push((entity_id_of(id as u32), cs)),
                            ),
                        },
                    }
                },
            },
        }
    }
}

/// Decoding a masked update section body.
pub open spec fn dec_masked_section(d: Seq<u8>, comps: Seq<ComponentDef>, limits: CodecLimits) -> Result<
    Seq<UpdEntV>,
    CodecError,
> {
    if size_error(d, limits) is Some {
        Err(size_error(d, limits)->Some_0)
    } else {
        match dec_count(d) {
            Err(e) => Err(e),
            Ok((count, p)) => if count > limits.max_entities_update {
                Err(
                    CodecError::LimitsExceeded {
                        kind: LimitKind::EntitiesUpdate,
                        limit: limits.max_entities_update,
                        actual: count as usize,
                    },
                )
            } else {
                match dec_upd_entities(d, p, comps, limits, count as nat, 0, 0, Seq::empty()) {
                    Err(e) => Err(e),
                    Ok((us, p2)) => match finish_section(d, p2, SectionTag::EntityUpdate) {
                        Some(e) => Err(e),
                        None => Ok(us),
                    },
                }
            },
        }
    }
}

fn decode_update_components(
    comps: &Vec<ComponentDef>,
    mask: &Vec<bool>,
    reader: &mut BitReader,
    limits: &CodecLimits,
) -> (r: CodecResult<Vec<DeltaUpdateComponent>>)
    requires
        mask@.len() == comps@.len(),
    ensures
        final(reader).data() == old(reader).data(),
        match dec_upd_comps(old(reader).data(), old(reader).pos(), comps@, mask@, *limits, 0, Seq::empty()) {
            Ok((cs, p)) => r is Ok && upd_comps_view(r->Ok_0@) == cs && final(reader).pos() == p,
            Err(e) => r == Err::<Vec<DeltaUpdateComponent>, CodecError>(e),
        },
{
    let n = comps.len();
    let mut out: Vec<DeltaUpdateComponent> = Vec::new();
    let mut k: usize = 0;
    assert(upd_comps_view(out@) =~= Seq::<UpdCompV>::empty());
    while k < n
        invariant
            n == comps@.len(),
            n == mask@.len(),
            k <= n,
            reader.data() == old(reader).data(),
            dec_upd_comps(old(reader).data(), old(reader).pos(), comps@, mask@, *limits, 0, Seq::empty())
                == dec_upd_comps(reader.data(), reader.pos(), comps@, mask@, *limits, k as nat, upd_comps_view(out@)),
        decreases n - k,
    {
        if mask[k] {
            let fields = decode_update_component(&comps[k], reader, limits)?;
            let c = DeltaUpdateComponent { id: comps[k].id, fields };
            let ghost before = out@;
            out.push(c);
            proof {
                assert(upd_comps_view(out@) =~= upd_comps_view(before).push(c@));
            }
        }
        k = k + 1;
    }
    Ok(out)
}

/// Decodes a masked update section body.
pub fn decode_update_section_masked(comps: &Vec<ComponentDef>, body: &[u8], limits: &CodecLimits) -> (r:
    CodecResult<Vec<DeltaUpdateEntity>>)
    ensures
        match dec_masked_section(body@, comps@, *limits) {
            Ok(us) => r is Ok && upd_entities_view(r->Ok_0@) == us,
            Err(e) => r == Err::<Vec<DeltaUpdateEntity>, CodecError>(e),
        },
{
    broadcast use super::types::lemma_entity_id_of;
    if body.len() > limits.max_section_bytes {
        return Err(
            CodecError::LimitsExceeded {
                kind: LimitKind::SectionBytes,
                limit: limits.max_section_bytes,
                actual: body.len(),
            },
        );
    }
    let mut reader = BitReader::new(body);
    let count = read_count(&mut reader)? as usize;
    if count > limits.max_entities_update {
        return Err(
            CodecError::LimitsExceeded {
                kind: LimitKind::EntitiesUpdate,
                limit: limits.max_entities_update,
                actual: count,
            },
        );
    }
    let ghost d = body@;
    let ghost p0 = reader.pos();
    let mut updates: Vec<DeltaUpdateEntity> = Vec::new();
    let mut prev: u32 = 0;
    let mut k: usize = 0;
    assert(upd_entities_view(updates@) =~= Seq::<UpdEntV>::empty());
    while k < count
        invariant
            k <= count,
            reader.data() == d,
            d == body@,
            dec_masked_section(d, comps@, *limits) == match dec_upd_entities(d, p0, comps@, *limits, count as nat, 0, 0, Seq::empty()) {
                Err(e) => Err(e),
                Ok((us, p2)) => match finish_section(d, p2, SectionTag::EntityUpdate) {
                    Some(e) => Err(e),
                    None => Ok(us),
                },
            },
            dec_upd_entities(d, p0, comps@, *limits, count as nat, 0, 0, Seq::empty()) == dec_upd_entities(
                d,
                reader.pos(),
                comps@,
                *limits,
                count as nat,
                k as nat,
                prev,
                upd_entities_view(updates@),
            ),
        decreases count - k,
    {
        if let Err(e) = reader.align_to_byte() {
            return Err(CodecError::Bitstream(e));
        }
        let id = match reader.read_u32_aligned() {
            Ok(v) => v,
            Err(e) => {
                return Err(CodecError::Bitstream(e));
            },
        };
        if k > 0 && id <= prev {
            return Err(CodecError::InvalidEntityOrder { previous: prev, current: id });
        }
        let mask = read_mask(&mut reader, comps.len(), MaskKind::ComponentMask)?;
        let components = decode_update_components(comps, &mask, &mut reader, limits)?;
        let u = DeltaUpdateEntity { id: EntityId::new(id), components };
        let ghost before = updates@;
        updates.push(u);
        proof {
            assert(upd_entities_view(updates@) =~= upd_entities_view(before).push(u@));
        }
        prev = id;
        k = k + 1;
    }
    finish_reader(&mut reader, SectionTag::EntityUpdate)?;
    Ok(updates)
}

// ---------------------------------------------------------------------------
// Sparse update sections.
/// Index of the first schema component with raw id `raw`, from `k` on.
pub open spec fn schema_find(comps: Seq<ComponentDef>, raw: u16, k: nat) -> Option<nat>
    decreases comps.len() - k,
{
    if k >= comps.len() {
        None
    } else if comps[k as int].id@ == raw {
        Some(k)
    } else {
        schema_find(comps, raw, k + 1)
    }
}

fn find_schema_component(comps: &Vec<ComponentDef>, raw: u16) -> (r: Option<usize>)
    ensures
        r matches Some(k) ==> schema_find(comps@, raw, 0) == Some(k as nat) && k < comps@.len(),
        r is None ==> schema_find(comps@, raw, 0) is None,
{
    let n = comps.len();
    let mut k: usize = 0;
    while k < n
        invariant
            n == comps@.len(),
            k <= n,
            schema_find(comps@, raw, 0) == schema_find(comps@, raw, k as nat),
        decreases n - k,
    {
        if comps[k].id.get() == raw {
            return Some(k);
        }
        k = k + 1;
    }
    None
}

/// An invalid field index error.
pub open spec fn bad_index(c: ComponentDef, idx: usize) -> CodecError {
    CodecError::InvalidMask {
        kind: MaskKind::FieldMask { component: c.id },
        reason: MaskReason::InvalidFieldIndex { field_index: idx, max: c.fields@.len() as usize },
    }
}

/// Reading a field index of a sparse entry.
pub open spec fn dec_index(d: Seq<u8>, p: nat, ib: u8, packed: bool) -> Result<(usize, nat), CodecError> {
    if packed {
        if ib == 0 {
            Ok((0, p))
        } else {
            match r_bits(d, p, ib) {
                Err(e) => Err(CodecError::Bitstream(e)),
                Ok((v, p1)) => Ok((v as usize, p1)),
            }
        }
    } else {
        match r_align(d, p) {
            Err(e) => Err(CodecError::Bitstream(e)),
            Ok(p1) => match r_varu32(d, p1) {
                Err(e) => Err(CodecError::Bitstream(e)),
                Ok((v, p2)) => Ok((v as usize, p2)),
            },
        }
    }
}

/// Reading the changed fields `j..count` of a sparse entry; indices must
/// increase and stay within the component.
pub open spec fn dec_sparse_fields(
    d: Seq<u8>,
    p: nat,
    c: ComponentDef,
    count: nat,
    ib: u8,
    packed: bool,
    j: nat,
    prev: Option<usize>,
    acc: Seq<(usize, FieldValue)>,
) -> Result<(Seq<(usize, FieldValue)>, nat), CodecError>
    decreases count - j,
{
    if j >= count {
        Ok((acc, p))
    } else {
        match dec_index(d, p, ib, packed) {
            Err(e) => Err(e),
            Ok((idx, p1)) => if idx >= c.fields@.len() {
                Err(bad_index(c, idx))
            } else if prev matches Some(pi) && idx <= pi {
                Err(bad_index(c, idx))
            } else {
                match dec_field(d, p1, c.id, c.fields@[idx as int]) {
                    Err(e) => Err(e),
                    Ok((v, p2)) => dec_sparse_fields(d, p2, c, count, ib, packed, j + 1, Some(idx), acc.push((idx, v))),
                }
            },
        }
    }
}

/// The entity and raw component ids of an entry.
pub open spec fn dec_entry_ids(d: Seq<u8>, p: nat, packed: bool) -> Result<(u32, u16, nat), CodecError> {
    match r_align(d, p) {
        Err(e) => Err(CodecError::Bitstream(e)),
        Ok(p1) => if packed {
            match r_varu32(d, p1) {
                Err(e) => Err(CodecError::Bitstream(e)),
                Ok((eid, p2)) => match r_varu32(d, p2) {
                    Err(e) => Err(CodecError::Bitstream(e)),
                    Ok((raw, p3)) => if raw > u16::MAX {
                        Err(
                            CodecError::InvalidMask {
                                kind: MaskKind::ComponentMask,
                                reason: MaskReason::InvalidComponentId { raw: u16::MAX },
                            },
                        )
                    } else {
                        Ok((eid, raw as u16, p3))
                    },
                },
            }
        } else {
            match r_le(d, p1, 4) {
                Err(e) => Err(CodecError::Bitstream(e)),
                Ok((eid, p2)) => match r_le(d, p2, 2) {
                    Err(e) => Err(CodecError::Bitstream(e)),
                    Ok((raw, p3)) => Ok((eid as u32, raw as u16, p3)),
                },
            }
        },
    }
}

/// Entries must come in increasing (entity, component) order.
pub open spec fn entry_order_error(prev_e: Option<u32>, prev_c: Option<u16>, eid: u32, raw: u16) -> Option<CodecError> {
    match prev_e {
        None => None,
        Some(pe) => if eid < pe {
            Some(CodecError::InvalidEntityOrder { previous: pe, current: eid })
        } else if eid == pe {
            match prev_c {
                Some(pc) => if raw <= pc {
                    Some(CodecError::InvalidEntityOrder { previous: pe, current: eid })
                } else {
                    None
                },
                None => None,
            }
        } else {
            None
        },
    }
}

/// Reading one sparse entry after the entry with ids `prev_e`, `prev_c`:
/// entity id, raw component id, schema index of the component, changed
/// fields, and the position after it.
pub open spec fn dec_entry(
    d: Seq<u8>,
    p: nat,
    comps: Seq<ComponentDef>,
    limits: CodecLimits,
    packed: bool,
    prev_e: Option<u32>,
    prev_c: Option<u16>,
) -> Result<(u32, u16, nat, Seq<(usize, FieldValue)>, nat), CodecError> {
    match dec_entry_ids(d, p, packed) {
        Err(e) => Err(e),
        Ok((eid, raw, p3)) => if raw == 0 {
            Err(CodecError::InvalidMask { kind: MaskKind::ComponentMask, reason: MaskReason::InvalidComponentId { raw: 0 } })
        } else if entry_order_error(prev_e, prev_c, eid, raw) is Some {
            Err(entry_order_error(prev_e, prev_c, eid, raw)->Some_0)
        } else {
            match schema_find(comps, raw, 0) {
                None => Err(
                    CodecError::InvalidMask {
                        kind: MaskKind::ComponentMask,
                        reason: MaskReason::UnknownComponent { component: crate::schema::component_id_of(raw) },
                    },
                ),
                Some(ci) => {
                    let c = comps[ci as int];
                    match r_varu32(d, p3) {
                        Err(e) => Err(CodecError::Bitstream(e)),
                        Ok((fc, p4)) => if fc == 0 {
                            Err(
                                CodecError::InvalidMask {
                                    kind: MaskKind::FieldMask { component: c.id },
                                    reason: MaskReason::EmptyFieldMask { component: c.id },
                                },
                            )
                        } else if fc > limits.max_fields_per_component {
                            Err(
                                CodecError::LimitsExceeded {
                                    kind: LimitKind::FieldsPerComponent,
                                    limit: limits.max_fields_per_component,
                                    actual: fc as usize,
                                },
                            )
                        } else if fc > c.fields@.len() {
                            Err(
                                CodecError::InvalidMask {
                                    kind: MaskKind::FieldMask { component: c.id },
                                    reason: MaskReason::FieldCountMismatch {
                                        expected: c.fields@.len() as usize,
                                        actual: fc as usize,
                                    },
                                },
                            )
                        } else {
                            match dec_sparse_fields(
                                d,
                                p4,
                                c,
                                fc as nat,
                                super::diff::index_bits_spec(c.fields@.len() as usize),
                                packed,
                                0,
                                None,
                                Seq::empty(),
                            ) {
                                Err(e) => Err(e),
                                Ok((fs, p5)) => Ok((eid, raw, ci, fs, p5)),
                            }
                        },
                    }
                },
            }
        },
    }
}

/// Adding an entry to the updates read so far: to the last entity when it
/// has the same id, as a new entity otherwise.
pub open spec fn add_entry(acc: Seq<UpdEntV>, eid: u32, comp: UpdCompV) -> Seq<UpdEntV> {
    if acc.len() > 0 && acc.last().0@ == eid {
        acc.update(acc.len() - 1, (acc.last().0, acc.last().1.push(comp)))
    } else {
        acc.push((entity_id_of(eid), seq![comp]))
    }
}

/// Reading entries `k..count` of a sparse update section.
#[verifier::opaque]
pub open spec fn dec_sparse_entries(
    d: Seq<u8>,
    p: nat,
    comps: Seq<ComponentDef>,
    limits: CodecLimits,
    packed: bool,
    count: nat,
    k: nat,
    prev_e: Option<u32>,
    prev_c: Option<u16>,
    acc: Seq<UpdEntV>,
) -> Result<(Seq<UpdEntV>, nat), CodecError>
    decreases count - k,
{
    if k >= count {
        Ok((acc, p))
    } else {
        match dec_entry(d, p, comps, limits, packed, prev_e, prev_c) {
            Err(e) => Err(e),
            Ok((eid, raw, ci, fs, p1)) => dec_sparse_entries(
                d,
                p1,
                comps,
                limits,
                packed,
                count,
                k + 1,
                Some(eid),
                Some(raw),
                add_entry(acc, eid, (comps[ci as int].id, fs)),
            ),
        }
    }
}

/// The tag of a sparse update section.
pub open spec fn sparse_tag(packed: bool) -> SectionTag {
    if packed {
        SectionTag::EntityUpdateSparsePacked
    } else {
        SectionTag::EntityUpdateSparse
    }
}

/// Decoding a sparse update section body.
pub open spec fn dec_sparse_section(d: Seq<u8>, comps: Seq<ComponentDef>, limits: CodecLimits, packed: bool) -> Result<
    Seq<UpdEntV>,
    CodecError,
> {
    if size_error(d, limits) is Some {
        Err(size_error(d, limits)->Some_0)
    } else {
        match dec_count(d) {
            Err(e) => Err(e),
            Ok((count, p)) => {
                let limit = super::diff::sat_mul(limits.max_entities_update, limits.max_components_per_entity);
                if count > limit {
                    Err(CodecError::LimitsExceeded { kind: LimitKind::EntitiesUpdate, limit, actual: count as usize })
                } else {
                    match dec_sparse_entries(d, p, comps, limits, packed, count as nat, 0, None, None, Seq::empty()) {
                        Err(e) => Err(e),
                        Ok((us, p2)) => match finish_section(d, p2, sparse_tag(packed)) {
                            Some(e) => Err(e),
                            None => if us.len() > limits.max_entities_update {
                                Err(
                                    CodecError::LimitsExceeded {
                                        kind: LimitKind::EntitiesUpdate,
                                        limit: limits.max_entities_update,
                                        actual: us.len() as usize,
                                    },
                                )
                            } else {
                                Ok(us)
                            },
                        },
                    }
                }
            },
        }
    }
}

fn read_index(reader: &mut BitReader, ib: u8, packed: bool) -> (r: CodecResult<usize>)
    ensures
        final(reader).data() == old(reader).data(),
        match dec_index(old(reader).data(), old(reader).pos(), ib, packed) {
            Ok((v, p)) => r == Ok::<usize, CodecError>(v) && final(reader).pos() == p,
            Err(e) => r == Err::<usize, CodecError>(e),
        },
{
    if packed {
        if ib == 0 {
            return Ok(0);
        }
        match reader.read_bits(ib) {
            Ok(v) => Ok(v as usize),
            Err(e) => Err(CodecError::Bitstream(e)),
        }
    } else {
        if let Err(e) = reader.align_to_byte() {
            return Err(CodecError::Bitstream(e));
        }
        match reader.read_varu32() {
            Ok(v) => Ok(v as usize),
            Err(e) => Err(CodecError::Bitstream(e)),
        }
    }
}

fn read_sparse_fields(
    component: &ComponentDef,
    reader: &mut BitReader,
    count: usize,
    ib: u8,
    packed: bool,
) -> (r: CodecResult<Vec<(usize, FieldValue)>>)
    ensures
        final(reader).data() == old(reader).data(),
        match dec_sparse_fields(old(reader).data(), old(reader).pos(), *component, count as nat, ib, packed, 0, None, Seq::empty()) {
            Ok((fs, p)) => r is Ok && r->Ok_0@ == fs && final(reader).pos() == p,
            Err(e) => r == Err::<Vec<(usize, FieldValue)>, CodecError>(e),
        },
{
    let n = component.fields.len();
    let mut fields: Vec<(usize, FieldValue)> = Vec::new();
    let mut prev: Option<usize> = None;
    let mut j: usize = 0;
    while j < count
        invariant
            n == component.fields@.len(),
            j <= count,
            reader.data() == old(reader).data(),
            dec_sparse_fields(old(reader).data(), old(reader).pos(), *component, count as nat, ib, packed, 0, None, Seq::empty())
                == dec_sparse_fields(reader.data(), reader.pos(), *component, count as nat, ib, packed, j as nat, prev, fields@),
        decreases count - j,
    {
        let idx = read_index(reader, ib, packed)?;
        if idx >= n {
            return Err(
                CodecError::InvalidMask {
                    kind: MaskKind::FieldMask { component: component.id },
                    reason: MaskReason::InvalidFieldIndex { field_index: idx, max: n },
                },
            );
        }
        if let Some(pi) = prev {
            if idx <= pi {
                return Err(
                    CodecError::InvalidMask {
                        kind: MaskKind::FieldMask { component: component.id },
                        reason: MaskReason::InvalidFieldIndex { field_index: idx, max: n },
                    },
                );
            }
        }
        let v = read_field_value(component.id, component.fields[idx], reader)?;
        fields.push((idx, v));
        prev = Some(idx);
        j = j + 1;
    }
    Ok(fields)
}

fn read_entry_ids(reader: &mut BitReader, packed: bool) -> (r: CodecResult<(u32, u16)>)
    ensures
        final(reader).data() == old(reader).data(),
        match dec_entry_ids(old(reader).data(), old(reader).pos(), packed) {
            Ok((e, c, p)) => r == Ok::<(u32, u16), CodecError>((e, c)) && final(reader).pos() == p,
            Err(e) => r == Err::<(u32, u16), CodecError>(e),
        },
{
    if let Err(e) = reader.align_to_byte() {
        return Err(CodecError::Bitstream(e));
    }
    if packed {
        let eid = match reader.read_varu32() {
            Ok(v) => v,
            Err(e) => {
                return Err(CodecError::Bitstream(e));
            },
        };
        let raw = match reader.read_varu32() {
            Ok(v) => v,
            Err(e) => {
                return Err(CodecError::Bitstream(e));
            },
        };
        if raw > 0xFFFF {
            return Err(
                CodecError::InvalidMask {
                    kind: MaskKind::ComponentMask,
                    reason: MaskReason::InvalidComponentId { raw: 0xFFFF },
                },
            );
        }
        Ok((eid, raw as u16))
    } else {
        let eid = match reader.read_u32_aligned() {
            Ok(v) => v,
            Err(e) => {
                return Err(CodecError::Bitstream(e));
            },
        };
        let raw = match reader.read_u16_aligned() {
            Ok(v) => v,
            Err(e) => {
                return Err(CodecError::Bitstream(e));
            },
        };
        Ok((eid, raw))
    }
}

fn read_entry(
    comps: &Vec<ComponentDef>,
    reader: &mut BitReader,
    limits: &CodecLimits,
    packed: bool,
    prev_e: Option<u32>,
    prev_c: Option<u16>,
) -> (r: CodecResult<(u32, u16, usize, Vec<(usize, FieldValue)>)>)
    ensures
        final(reader).data() == old(reader).data(),
        match dec_entry(old(reader).data(), old(reader).pos(), comps@, *limits, packed, prev_e, prev_c) {
            Ok((e, c, ci, fs, p)) => r is Ok && r->Ok_0.0 == e && r->Ok_0.1 == c && r->Ok_0.2 == ci && r->Ok_0.3@ == fs
                && final(reader).pos() == p && ci < comps@.len(),
            Err(e) => r == Err::<(u32, u16, usize, Vec<(usize, FieldValue)>), CodecError>(e),
        },
{
    broadcast use crate::schema::lemma_component_id_of;
    let (eid, raw) = read_entry_ids(reader, packed)?;
    let cid = match ComponentId::new(raw) {
        Some(c) => c,
        None => {
            return Err(
                CodecError::InvalidMask { kind: MaskKind::ComponentMask, reason: MaskReason::InvalidComponentId { raw } },
            );
        },
    };
    if let Some(pe) = prev_e {
        if eid < pe {
            return Err(CodecError::InvalidEntityOrder { previous: pe, current: eid });
        }
        if eid == pe {
            if let Some(pc) = prev_c {
                if raw <= pc {
                    return Err(CodecError::InvalidEntityOrder { previous: pe, current: eid });
                }
            }
        }
    }
    let ci = match find_schema_component(comps, raw) {
        Some(k) => k,
        None => {
            return Err(
                CodecError::InvalidMask { kind: MaskKind::ComponentMask, reason: MaskReason::UnknownComponent { component: cid } },
            );
        },
    };
    let c = &comps[ci];
    let fc = match reader.read_varu32() {
        Ok(v) => v as usize,
        Err(e) => {
            return Err(CodecError::Bitstream(e));
        },
    };
    if fc == 0 {
        return Err(
            CodecError::InvalidMask {
                kind: MaskKind::FieldMask { component: c.id },
                reason: MaskReason::EmptyFieldMask { component: c.id },
            },
        );
    }
    if fc > limits.max_fields_per_component {
        return Err(
            CodecError::LimitsExceeded {
                kind: LimitKind::FieldsPerComponent,
                limit: limits.max_fields_per_component,
                actual: fc,
            },
        );
    }
    if fc > c.fields.len() {
        return Err(
            CodecError::InvalidMask {
                kind: MaskKind::FieldMask { component: c.id },
                reason: MaskReason::FieldCountMismatch { expected: c.fields.len(), actual: fc },
            },
        );
    }
    let ib = crate::codec::model::required_bits(c.fields.len().saturating_sub(1) as u64);
    let fields = read_sparse_fields(c, reader, fc, ib, packed)?;
    Ok((eid, raw, ci, fields))
}

fn decode_update_section_sparse(comps: &Vec<ComponentDef>, body: &[u8], limits: &CodecLimits, packed: bool) -> (r:
    CodecResult<Vec<DeltaUpdateEntity>>)
    ensures
        match dec_sparse_section(body@, comps@, *limits, packed) {
            Ok(us) => r is Ok && upd_entities_view(r->Ok_0@) == us,
            Err(e) => r == Err::<Vec<DeltaUpdateEntity>, CodecError>(e),
        },
{
    broadcast use super::types::lemma_entity_id_of;
    proof {
        reveal(dec_sparse_entries);
    }
    if body.len() > limits.max_section_bytes {
        return Err(
            CodecError::LimitsExceeded {
                kind: LimitKind::SectionBytes,
                limit: limits.max_section_bytes,
                actual: body.len(),
            },
        );
    }
    let mut reader = BitReader::new(body);
    let count = read_count(&mut reader)? as usize;
    let limit = super::diff::saturating_mul(limits.max_entities_update, limits.max_components_per_entity);
    if count > limit {
        return Err(CodecError::LimitsExceeded { kind: LimitKind::EntitiesUpdate, limit, actual: count });
    }
    let ghost d = body@;
    let ghost p0 = reader.pos();
    let mut updates: Vec<DeltaUpdateEntity> = Vec::new();
    let mut prev_e: Option<u32> = None;
    let mut prev_c: Option<u16> = None;
    let mut k: usize = 0;
    assert(upd_entities_view(updates@) =~= Seq::<UpdEntV>::empty());
    while k < count
        invariant
            k <= count,
            reader.data() == d,
            d == body@,
            dec_sparse_section(d, comps@, *limits, packed) == match dec_sparse_entries(d, p0, comps@, *limits, packed, count as nat, 0, None, None, Seq::empty()) {
                Err(e) => Err(e),
                Ok((us, p2)) => match finish_section(d, p2, sparse_tag(packed)) {
                    Some(e) => Err(e),
                    None => if us.len() > limits.max_entities_update {
                        Err(
                            CodecError::LimitsExceeded {
                                kind: LimitKind::EntitiesUpdate,
                                limit: limits.max_entities_update,
                                actual: us.len() as usize,
                            },
                        )
                    } else {
                        Ok(us)
                    },
                },
            },
            dec_sparse_entries(d, p0, comps@, *limits, packed, count as nat, 0, None, None, Seq::empty())
                == dec_sparse_entries(d, reader.pos(), comps@, *limits, packed, count as nat, k as nat, prev_e, prev_c, upd_entities_view(updates@)),
        decreases count - k,
    {
        proof {
            reveal(dec_sparse_entries);
        }
        let (eid, raw, ci, fields) = read_entry(comps, &mut reader, limits, packed, prev_e, prev_c)?;
        let comp = DeltaUpdateComponent { id: comps[ci].id, fields };
        let ghost before = upd_entities_view(updates@);
        let n = updates.len();
        if n > 0 && updates[n - 1].id.raw() == eid {
            let mut last = updates.pop().unwrap();
            let ghost lb = last@;
            last.components.push(comp);
            updates.push(last);
            proof {
                assert(upd_comps_view(last.components@) =~= lb.1.push(comp@));
                assert(upd_entities_view(updates@) =~= add_entry(before, eid, comp@));
            }
        } else {
            let mut cs: Vec<DeltaUpdateComponent> = Vec::new();
            cs.push(comp);
            let e = DeltaUpdateEntity { id: EntityId::new(eid), components: cs };
            updates.push(e);
            proof {
                assert(upd_comps_view(cs@) =~= seq![comp@]);
                assert(upd_entities_view(updates@) =~= add_entry(before, eid, comp@));
            }
        }
        prev_e = Some(eid);
        prev_c = Some(raw);
        k = k + 1;
    }
    let tag = if packed {
        SectionTag::EntityUpdateSparsePacked
    } else {
        SectionTag::EntityUpdateSparse
    };
    finish_reader(&mut reader, tag)?;
    if updates.len() > limits.max_entities_update {
        return Err(
            CodecError::LimitsExceeded {
                kind: LimitKind::EntitiesUpdate,
                limit: limits.max_entities_update,
                actual: updates.len(),
            },
        );
    }
    Ok(updates)
}

/// Decodes a sparse update section body with packed field indices.
pub fn decode_update_section_sparse_packed(comps: &Vec<ComponentDef>, body: &[u8], limits: &CodecLimits) -> (r:
    CodecResult<Vec<DeltaUpdateEntity>>)
    ensures
        match dec_sparse_section(body@, comps@, *limits, true) {
            Ok(us) => r is Ok && upd_entities_view(r->Ok_0@) == us,
            Err(e) => r == Err::<Vec<DeltaUpdateEntity>, CodecError>(e),
        },
{
    decode_update_section_sparse(comps, body, limits, true)
}

/// Decodes a sparse update section body with varint field indices.
pub fn decode_update_section_sparse_varint(comps: &Vec<ComponentDef>, body: &[u8], limits: &CodecLimits) -> (r:
    CodecResult<Vec<DeltaUpdateEntity>>)
    ensures
        match dec_sparse_section(body@, comps@, *limits, false) {
            Ok(us) => r is Ok && upd_entities_view(r->Ok_0@) == us,
            Err(e) => r == Err::<Vec<DeltaUpdateEntity>, CodecError>(e),
        },
{
    decode_update_section_sparse(comps, body, limits, false)
}

} // verus!
