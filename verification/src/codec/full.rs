//! Full snapshot encoding and decoding.
use super::error::{CodecError, CodecResult, LimitKind, MaskKind, MaskReason};
use super::limits::CodecLimits;
use super::model::{lift, r_align, r_le, r_varu32, rcap, w_align, w_le, w_varu32, FieldValue};
use super::section::{frame_section, framed, section_at, SECTION_PREFIX};
use super::snapshot::{
    dec_full_component, dec_mask, decode_full_component, enc_mask, enc_ones, enc_values,
    ensure_known_components, entities_view, find_comp, find_component, read_mask, unknown_from,
    write_component_mask, write_ones, write_values, ComponentSnapshot, ComponentV, EntitySnapshot,
    EntityV, Snapshot,
};
use super::types::{EntityId, SnapshotTick};
use crate::bitstream::bits::{bits_of, cap_bits};
use crate::bitstream::{BitReader, BitWriter};
use crate::schema::{schema_bytes, schema_hash, fnv_from, ComponentDef, Schema, FNV_OFFSET};
use crate::wire::{
    decode_packet, encode_header, header_bytes, sections_view, PacketFlags, PacketHeader,
    SectionTag, WirePacket, HEADER_SIZE,
};
use vstd::prelude::*;

verus! {

/// The hash a packet for `comps` carries.
pub open spec fn hash_of(comps: Seq<ComponentDef>) -> u64 {
    fnv_from(FNV_OFFSET, schema_bytes(comps))
}

// ---------------------------------------------------------------------------
// Encoding.
/// Writing a component of a full snapshot: field count checks, one mask bit
/// per field, then the values.
pub open spec fn enc_full_fields(w: Seq<bool>, cap: nat, c: ComponentDef, vs: Seq<FieldValue>, limits: CodecLimits) -> Result<
    Seq<bool>,
    CodecError,
> {
    let n = c.fields@.len();
    if n > limits.max_fields_per_component {
        Err(
            CodecError::LimitsExceeded {
                kind: LimitKind::FieldsPerComponent,
                limit: limits.max_fields_per_component,
                actual: n as usize,
            },
        )
    } else if vs.len() != n {
        Err(
            CodecError::InvalidMask {
                kind: MaskKind::FieldMask { component: c.id },
                reason: MaskReason::FieldCountMismatch { expected: n as usize, actual: vs.len() as usize },
            },
        )
    } else {
        match enc_ones(w, cap, n, 0) {
            Ok(w1) => enc_values(w1, cap, c.id, c.fields@, vs, 0),
            Err(e) => Err(e),
        }
    }
}

/// Writes the fields of one present component of a full snapshot.
fn write_component_fields(
    component: &ComponentDef,
    snapshot: &ComponentSnapshot,
    limits: &CodecLimits,
    writer: &mut BitWriter,
) -> (r: CodecResult<()>)
    ensures
        final(writer).same_buffer(old(writer)),
        final(final(writer).target())@ == final(old(writer).target())@,
        match enc_full_fields(old(writer).written(), old(writer).capacity(), *component, snapshot.fields@, *limits) {
            Ok(w) => r is Ok && final(writer).written() == w,
            Err(e) => r == Err::<(), CodecError>(e),
        },
{
    let n = component.fields.len();
    if n > limits.max_fields_per_component {
        return Err(
            CodecError::LimitsExceeded {
                kind: LimitKind::FieldsPerComponent,
                limit: limits.max_fields_per_component,
                actual: n,
            },
        );
    }
    if snapshot.fields.len() != n {
        return Err(
            CodecError::InvalidMask {
                kind: MaskKind::FieldMask { component: component.id },
                reason: MaskReason::FieldCountMismatch { expected: n, actual: snapshot.fields.len() },
            },
        );
    }
    write_ones(n, writer)?;
    write_values(component.id, &component.fields, &snapshot.fields, writer)
}

/// Writing, for each schema component from `k` on that the entity has, its fields.
pub open spec fn enc_present(
    w: Seq<bool>,
    cap: nat,
    comps: Seq<ComponentDef>,
    cs: Seq<ComponentV>,
    limits: CodecLimits,
    k: nat,
) -> Result<Seq<bool>, CodecError>
    decreases comps.len() - k,
{
    if k >= comps.len() {
        Ok(w)
    } else {
        match find_comp(cs, comps[k as int].id) {
            None => enc_present(w, cap, comps, cs, limits, k + 1),
            Some(i) => match enc_full_fields(w, cap, comps[k as int], cs[i as int].1, limits) {
                Ok(w1) => enc_present(w1, cap, comps, cs, limits, k + 1),
                Err(e) => Err(e),
            },
        }
    }
}

fn write_present_components(
    comps: &Vec<ComponentDef>,
    entity: &EntitySnapshot,
    limits: &CodecLimits,
    writer: &mut BitWriter,
) -> (r: CodecResult<()>)
    ensures
        final(writer).same_buffer(old(writer)),
        final(final(writer).target())@ == final(old(writer).target())@,
        match enc_present(old(writer).written(), old(writer).capacity(), comps@, entity@.1, *limits, 0) {
            Ok(w) => r is Ok && final(writer).written() == w,
            Err(e) => r == Err::<(), CodecError>(e),
        },
{
    let n = comps.len();
    let mut k: usize = 0;
    while k < n
        invariant
            n == comps@.len(),
            k <= n,
            writer.same_buffer(old(writer)),
            final(writer.target())@ == final(old(writer).target())@,
            enc_present(old(writer).written(), old(writer).capacity(), comps@, entity@.1, *limits, 0)
                == enc_present(writer.written(), writer.capacity(), comps@, entity@.1, *limits, k as nat),
        decreases n - k,
    {
        if let Some(i) = find_component(entity, comps[k].id) {
            assert(entity@.1[i as int] == entity.components@[i as int]@);
            assert(find_comp(entity@.1, comps@[k as int].id) == Some(i as nat));
            write_component_fields(&comps[k], &entity.components[i], limits, writer)?;
        }
        k = k + 1;
    }
    Ok(())
}

/// Writing one entity of a full snapshot.
pub open spec fn enc_entity(w: Seq<bool>, cap: nat, comps: Seq<ComponentDef>, e: EntityV, limits: CodecLimits) -> Result<
    Seq<bool>,
    CodecError,
> {
    match w_align(w, cap) {
        Err(err) => Err(CodecError::Bitstream(err)),
        Ok(w1) => match w_le(w1, cap, e.0@ as u64, 4) {
            Err(err) => Err(CodecError::Bitstream(err)),
            Ok(w2) => if e.1.len() > limits.max_components_per_entity {
                Err(
                    CodecError::LimitsExceeded {
                        kind: LimitKind::ComponentsPerEntity,
                        limit: limits.max_components_per_entity,
                        actual: e.1.len() as usize,
                    },
                )
            } else {
                match unknown_from(comps, e.1, 0) {
                    Some(err) => Err(err),
                    None => match enc_mask(w2, cap, comps, e.1, 0) {
                        Err(err) => Err(err),
                        Ok(w3) => enc_present(w3, cap, comps, e.1, limits, 0),
                    },
                }
            }
        },
    }
}

/// Writing the entities `es[k..]`, checking that ids increase.
pub open spec fn enc_entities(
    w: Seq<bool>,
    cap: nat,
    comps: Seq<ComponentDef>,
    es: Seq<EntityV>,
    limits: CodecLimits,
    k: nat,
) -> Result<Seq<bool>, CodecError>
    decreases es.len() - k,
{
    if k >= es.len() {
        Ok(w)
    } else if k > 0 && es[k as int].0@ <= es[k - 1].0@ {
        Err(CodecError::InvalidEntityOrder { previous: es[k - 1].0@, current: es[k as int].0@ })
    } else {
        match enc_entity(w, cap, comps, es[k as int], limits) {
            Ok(w1) => enc_entities(w1, cap, comps, es, limits, k + 1),
            Err(e) => Err(e),
        }
    }
}

/// Writing the entities from `k` on, then padding to a byte boundary.
pub open spec fn enc_tail(
    w: Seq<bool>,
    cap: nat,
    comps: Seq<ComponentDef>,
    es: Seq<EntityV>,
    limits: CodecLimits,
    k: nat,
) -> Result<Seq<bool>, CodecError> {
    match enc_entities(w, cap, comps, es, limits, k) {
        Err(e) => Err(e),
        Ok(w3) => lift(w_align(w3, cap)),
    }
}

/// The body of a full snapshot's create section.
pub open spec fn enc_create_body(
    w: Seq<bool>,
    cap: nat,
    comps: Seq<ComponentDef>,
    es: Seq<EntityV>,
    limits: CodecLimits,
) -> Result<Seq<bool>, CodecError> {
    if comps.len() > limits.max_components_per_entity {
        Err(
            CodecError::LimitsExceeded {
                kind: LimitKind::ComponentsPerEntity,
                limit: limits.max_components_per_entity,
                actual: comps.len() as usize,
            },
        )
    } else {
        match w_align(w, cap) {
            Err(e) => Err(CodecError::Bitstream(e)),
            Ok(w1) => match w_varu32(w1, cap, es.len() as u32) {
                Err(e) => Err(CodecError::Bitstream(e)),
                Ok(w2) => enc_tail(w2, cap, comps, es, limits, 0),
            },
        }
    }
}

fn write_entity(
    comps: &Vec<ComponentDef>,
    entity: &EntitySnapshot,
    limits: &CodecLimits,
    writer: &mut BitWriter,
) -> (r: CodecResult<()>)
    ensures
        final(writer).same_buffer(old(writer)),
        final(final(writer).target())@ == final(old(writer).target())@,
        match enc_entity(old(writer).written(), old(writer).capacity(), comps@, entity@, *limits) {
            Ok(w) => r is Ok && final(writer).written() == w,
            Err(e) => r == Err::<(), CodecError>(e),
        },
{
    if let Err(e) = writer.align_to_byte() {
        return Err(CodecError::Bitstream(e));
    }
    if let Err(e) = writer.write_u32_aligned(entity.id.raw()) {
        return Err(CodecError::Bitstream(e));
    }
    if entity.components.len() > limits.max_components_per_entity {
        return Err(
            CodecError::LimitsExceeded {
                kind: LimitKind::ComponentsPerEntity,
                limit: limits.max_components_per_entity,
                actual: entity.components.len(),
            },
        );
    }
    ensure_known_components(comps, entity)?;
    write_component_mask(comps, entity, writer)?;
    write_present_components(comps, entity, limits, writer)
}

fn encode_create_body(
    comps: &Vec<ComponentDef>,
    entities: &[EntitySnapshot],
    limits: &CodecLimits,
    writer: &mut BitWriter,
) -> (r: CodecResult<()>)
    ensures
        final(writer).same_buffer(old(writer)),
        final(final(writer).target())@ == final(old(writer).target())@,
        match enc_create_body(old(writer).written(), old(writer).capacity(), comps@, entities_view(entities@), *limits) {
            Ok(w) => r is Ok && final(writer).written() == w,
            Err(e) => r == Err::<(), CodecError>(e),
        },
{
    if comps.len() > limits.max_components_per_entity {
        return Err(
            CodecError::LimitsExceeded {
                kind: LimitKind::ComponentsPerEntity,
                limit: limits.max_components_per_entity,
                actual: comps.len(),
            },
        );
    }
    if let Err(e) = writer.align_to_byte() {
        return Err(CodecError::Bitstream(e));
    }
    if let Err(e) = writer.write_varu32(entities.len() as u32) {
        return Err(CodecError::Bitstream(e));
    }
    let ghost es = entities_view(entities@);
    let n = entities.len();
    let mut k: usize = 0;
    let mut prev: u32 = 0;
    while k < n
        invariant
            n == entities@.len(),
            es == entities_view(entities@),
            k <= n,
            k > 0 ==> prev == es[k - 1].0@,
            writer.same_buffer(old(writer)),
            final(writer.target())@ == final(old(writer).target())@,
            enc_create_body(old(writer).written(), old(writer).capacity(), comps@, es, *limits)
                == enc_tail(writer.written(), writer.capacity(), comps@, es, *limits, k as nat),
        decreases n - k,
    {
        let id = entities[k].id.raw();
        if k > 0 && id <= prev {
            return Err(CodecError::InvalidEntityOrder { previous: prev, current: id });
        }
        write_entity(comps, &entities[k], limits, writer)?;
        prev = id;
        k = k + 1;
    }
    match writer.align_to_byte() {
        Ok(()) => Ok(()),
        Err(e) => Err(CodecError::Bitstream(e)),
    }
}

/// What encoding a full snapshot amounts to for an output of `out_len`
/// bytes: an error, no section (no entities), or the create section body.
pub open spec fn full_plan(comps: Seq<ComponentDef>, es: Seq<EntityV>, limits: CodecLimits, out_len: nat) -> Result<
    Option<Seq<bool>>,
    CodecError,
> {
    if out_len < HEADER_SIZE {
        Err(CodecError::OutputTooSmall { needed: HEADER_SIZE, available: out_len as usize })
    } else if es.len() > limits.max_entities_create {
        Err(
            CodecError::LimitsExceeded {
                kind: LimitKind::EntitiesCreate,
                limit: limits.max_entities_create,
                actual: es.len() as usize,
            },
        )
    } else if es.len() == 0 {
        Ok(None)
    } else {
        let avail = (out_len - HEADER_SIZE) as nat;
        let body = enc_create_body(Seq::empty(), cap_bits((avail - SECTION_PREFIX) as nat), comps, es, limits);
        match framed(body, avail, limits) {
            Err(e) => Err(e),
            Ok(_) => match body {
                Ok(w) => Ok(Some(w)),
                Err(e) => Err(e),
            },
        }
    }
}

/// The header of a full snapshot packet.
pub open spec fn full_header(comps: Seq<ComponentDef>, tick: SnapshotTick, payload_len: nat) -> PacketHeader {
    PacketHeader {
        version: crate::wire::VERSION,
        flags: PacketFlags(1),
        schema_hash: hash_of(comps),
        tick: tick@,
        baseline_tick: 0,
        payload_len: payload_len as u32,
    }
}

pub proof fn lemma_header_bytes_len(h: PacketHeader)
    ensures
        header_bytes(h).len() == HEADER_SIZE,
{
    crate::bitstream::bits::lemma_le_bytes_len(crate::wire::MAGIC as nat, 4);
    crate::bitstream::bits::lemma_le_bytes_len(h.version as nat, 2);
    crate::bitstream::bits::lemma_le_bytes_len(h.flags.0 as nat, 2);
    crate::bitstream::bits::lemma_le_bytes_len(h.schema_hash as nat, 8);
    crate::bitstream::bits::lemma_le_bytes_len(h.tick as nat, 4);
    crate::bitstream::bits::lemma_le_bytes_len(h.baseline_tick as nat, 4);
    crate::bitstream::bits::lemma_le_bytes_len(h.payload_len as nat, 4);
}

/// Writes a packet header at the start of `out`, keeping the rest.
pub fn write_header(header: &PacketHeader, out: &mut [u8])
    requires
        old(out)@.len() >= HEADER_SIZE,
    ensures
        final(out)@.len() == old(out)@.len(),
        final(out)@.take(HEADER_SIZE as int) == header_bytes(*header),
        final(out)@.skip(HEADER_SIZE as int) == old(out)@.skip(HEADER_SIZE as int),
{
    let _ = encode_header(header, out);
    proof {
        lemma_header_bytes_len(*header);
        crate::wire::bytes::lemma_splice_parts(old(out)@, 0, header_bytes(*header));
    }
}

/// Encodes a full snapshot packet into `out` and returns the bytes used.
pub fn encode_full_snapshot(
    schema: &Schema,
    tick: SnapshotTick,
    entities: &[EntitySnapshot],
    limits: &CodecLimits,
    out: &mut [u8],
) -> (r: CodecResult<usize>)
    ensures
        final(out)@.len() == old(out)@.len(),
        match full_plan(schema.components@, entities_view(entities@), *limits, old(out)@.len()) {
            Err(e) => r == Err::<usize, CodecError>(e),
            Ok(None) => r == Ok::<usize, CodecError>(HEADER_SIZE) && final(out)@.take(HEADER_SIZE as int)
                == header_bytes(full_header(schema.components@, tick, 0)),
            Ok(Some(w)) => {
                let t = super::section::section_total(w.len() / 8);
                &&& r == Ok::<usize, CodecError>((HEADER_SIZE + t) as usize)
                &&& final(out)@.take(HEADER_SIZE as int) == header_bytes(full_header(schema.components@, tick, t))
                &&& section_at(final(out)@, HEADER_SIZE as int, SectionTag::EntityCreate, w)
            },
        },
{
    if out.len() < HEADER_SIZE {
        return Err(CodecError::OutputTooSmall { needed: HEADER_SIZE, available: out.len() });
    }
    if entities.len() > limits.max_entities_create {
        return Err(
            CodecError::LimitsExceeded {
                kind: LimitKind::EntitiesCreate,
                limit: limits.max_entities_create,
                actual: entities.len(),
            },
        );
    }
    let mut offset = HEADER_SIZE;
    let ghost es = entities_view(entities@);
    if entities.len() > 0 {
        let avail = out.len() - HEADER_SIZE;
        if avail < SECTION_PREFIX {
            return Err(CodecError::OutputTooSmall { needed: SECTION_PREFIX, available: avail });
        }
        let body_room = avail - SECTION_PREFIX;
        let mut tmp: Vec<u8> = vec![0u8; body_room];
        let ghost cap = cap_bits((avail - SECTION_PREFIX) as nat);
        let (body_len, w) = {
            let mut writer = BitWriter::new(tmp.as_mut_slice());
            let res = encode_create_body(&schema.components, entities, limits, &mut writer);
            let ghost w = writer.written();
            match res {
                Ok(()) => {},
                Err(e) => {
                    return Err(e);
                },
            }
            let n = writer.finish();
            (n, Ghost(w))
        };
        let ghost wv = w@;
        proof {
            assert(wv.len() % 8 == 0) by {
                assert(enc_create_body(Seq::empty(), cap, schema.components@, es, *limits) == Ok::<Seq<bool>, CodecError>(wv));
            }
        }
        let written = frame_section(SectionTag::EntityCreate, &tmp, body_len, out, HEADER_SIZE, limits, Ghost(wv))?;
        offset = offset + written;
    }
    let payload_len = offset - HEADER_SIZE;
    let header = PacketHeader::full_snapshot(schema_hash(schema), tick.raw(), payload_len as u32);
    let ghost before = out@;
    write_header(&header, out);
    proof {
        if entities@.len() > 0 {
            let w = full_plan(schema.components@, es, *limits, old(out)@.len())->Ok_0->Some_0;
            super::section::lemma_section_at_keep(before, out@, HEADER_SIZE as int, HEADER_SIZE as int, SectionTag::EntityCreate, w);
        }
    }
    Ok(offset)
}

// ---------------------------------------------------------------------------
// Decoding.
/// Reading, for the schema components from `k` on whose mask bit is set,
/// their field values.
pub open spec fn dec_comps(
    d: Seq<u8>,
    p: nat,
    comps: Seq<ComponentDef>,
    mask: Seq<bool>,
    limits: CodecLimits,
    k: nat,
) -> Result<(Seq<ComponentV>, nat), CodecError>
    decreases comps.len() - k,
{
    if k >= comps.len() {
        Ok((Seq::empty(), p))
    } else if !mask[k as int] {
        dec_comps(d, p, comps, mask, limits, k + 1)
    } else {
        match dec_full_component(d, p, comps[k as int], limits) {
            Err(e) => Err(e),
            Ok((vs, p1)) => match dec_comps(d, p1, comps, mask, limits, k + 1) {
                Err(e) => Err(e),
                Ok((rest, p2)) => Ok((seq![(comps[k as int].id, vs)] + rest, p2)),
            },
        }
    }
}

/// Reading the component mask and the present components of one entity.
pub open spec fn dec_entity_comps(d: Seq<u8>, p: nat, comps: Seq<ComponentDef>, limits: CodecLimits) -> Result<
    (Seq<ComponentV>, nat),
    CodecError,
> {
    match dec_mask(d, p, comps.len(), MaskKind::ComponentMask) {
        Err(e) => Err(e),
        Ok((mask, p1)) => dec_comps(d, p1, comps, mask, limits, 0),
    }
}

/// Reading the entities `k..count` of a create section; `prev` is the id of
/// entity `k - 1`.
pub open spec fn dec_entities(
    d: Seq<u8>,
    p: nat,
    comps: Seq<ComponentDef>,
    limits: CodecLimits,
    count: nat,
    k: nat,
    prev: u32,
) -> Result<(Seq<EntityV>, nat), CodecError>
    decreases count - k,
{
    if k >= count {
        Ok((Seq::empty(), p))
    } else {
        match r_align(d, p) {
            Err(e) => Err(CodecError::Bitstream(e)),
            Ok(p1) => match r_le(d, p1, 4) {
                Err(e) => Err(CodecError::Bitstream(e)),
                Ok((id, p2)) => if k > 0 && id <= prev {
                    Err(CodecError::InvalidEntityOrder { previous: prev, current: id as u32 })
                } else {
                    match dec_entity_comps(d, p2, comps, limits) {
                        Err(e) => Err(e),
                        Ok((cs, p3)) => match dec_entities(d, p3, comps, limits, count, k + 1, id as u32) {
                            Err(e) => Err(e),
                            Ok((rest, p4)) => Ok((seq![(super::types::entity_id_of(id as u32), cs)] + rest, p4)),
                        },
                    }
                },
            },
        }
    }
}

/// Decoding the body of a full snapshot's create section.
pub open spec fn dec_create_section(d: Seq<u8>, comps: Seq<ComponentDef>, limits: CodecLimits) -> Result<
    Seq<EntityV>,
    CodecError,
> {
    if d.len() > limits.max_section_bytes {
        Err(
            CodecError::LimitsExceeded {
                kind: LimitKind::SectionBytes,
                limit: limits.max_section_bytes,
                actual: d.len() as usize,
            },
        )
    } else {
        match r_align(d, 0) {
            Err(e) => Err(CodecError::Bitstream(e)),
            Ok(p1) => match r_varu32(d, p1) {
                Err(e) => Err(CodecError::Bitstream(e)),
                Ok((count, p2)) => if count > limits.max_entities_create {
                    Err(
                        CodecError::LimitsExceeded {
                            kind: LimitKind::EntitiesCreate,
                            limit: limits.max_entities_create,
                            actual: count as usize,
                        },
                    )
                } else if comps.len() > limits.max_components_per_entity {
                    Err(
                        CodecError::LimitsExceeded {
                            kind: LimitKind::ComponentsPerEntity,
                            limit: limits.max_components_per_entity,
                            actual: comps.len() as usize,
                        },
                    )
                } else {
                    match dec_entities(d, p2, comps, limits, count as nat, 0, 0) {
                        Err(e) => Err(e),
                        Ok((es, p3)) => match r_align(d, p3) {
                            Err(e) => Err(CodecError::Bitstream(e)),
                            Ok(p4) => if rcap(d) - p4 != 0 {
                                Err(
                                    CodecError::TrailingSectionData {
                                        section: SectionTag::EntityCreate,
                                        remaining_bits: (rcap(d) - p4) as usize,
                                    },
                                )
                            } else {
                                Ok(es)
                            },
                        },
                    }
                },
            },
        }
    }
}

fn decode_entity_components(
    comps: &Vec<ComponentDef>,
    reader: &mut BitReader,
    limits: &CodecLimits,
) -> (r: CodecResult<Vec<ComponentSnapshot>>)
    ensures
        final(reader).data() == old(reader).data(),
        match dec_entity_comps(old(reader).data(), old(reader).pos(), comps@, *limits) {
            Ok((cs, p)) => r is Ok && super::snapshot::components_view(r->Ok_0@) == cs && final(reader).pos() == p,
            Err(e) => r == Err::<Vec<ComponentSnapshot>, CodecError>(e),
        },
{
    let n = comps.len();
    let mask = read_mask(reader, n, MaskKind::ComponentMask)?;
    let ghost p1 = reader.pos();
    let mut out: Vec<ComponentSnapshot> = Vec::new();
    let mut k: usize = 0;
    while k < n
        invariant
            n == comps@.len(),
            n == mask@.len(),
            k <= n,
            reader.data() == old(reader).data(),
            dec_entity_comps(old(reader).data(), old(reader).pos(), comps@, *limits) == dec_comps(
                old(reader).data(),
                p1,
                comps@,
                mask@,
                *limits,
                0,
            ),
            dec_comps(reader.data(), p1, comps@, mask@, *limits, 0) == match dec_comps(
                reader.data(),
                reader.pos(),
                comps@,
                mask@,
                *limits,
                k as nat,
            ) {
                Err(e) => Err(e),
                Ok((rest, p2)) => Ok((super::snapshot::components_view(out@) + rest, p2)),
            },
        decreases n - k,
    {
        if mask[k] {
            let ghost before = out@;
            let fields = decode_full_component(&comps[k], reader, limits)?;
            let c = ComponentSnapshot { id: comps[k].id, fields };
            out.push(c);
            proof {
                assert(super::snapshot::components_view(out@) =~= super::snapshot::components_view(before).push(c@));
                let nxt = dec_comps(reader.data(), reader.pos(), comps@, mask@, *limits, (k + 1) as nat);
                if let Ok((rest, p2)) = nxt {
                    assert(super::snapshot::components_view(before) + (seq![c@] + rest) =~= super::snapshot::components_view(out@) + rest);
                }
            }
        }
        k = k + 1;
    }
    assert(super::snapshot::components_view(out@) + Seq::<ComponentV>::empty() =~= super::snapshot::components_view(out@));
    Ok(out)
}

fn decode_create_section(comps: &Vec<ComponentDef>, body: &[u8], limits: &CodecLimits) -> (r: CodecResult<
    Vec<EntitySnapshot>,
>)
    ensures
        match dec_create_section(body@, comps@, *limits) {
            Ok(es) => r is Ok && entities_view(r->Ok_0@) == es,
            Err(e) => r == Err::<Vec<EntitySnapshot>, CodecError>(e),
        },
{
    broadcast use super::types::lemma_entity_id_of;
    if body.len() > limits.max_section_bytes {
        return Err(
            CodecError::LimitsExceeded {
                kind: LimitKind::SectionBytes,
                limit: limits.max_section_bytes,
                actual: body.len(),
            },
        );
    }
    let mut reader = BitReader::new(body);
    if let Err(e) = reader.align_to_byte() {
        return Err(CodecError::Bitstream(e));
    }
    let count = match reader.read_varu32() {
        Ok(c) => c as usize,
        Err(e) => {
            return Err(CodecError::Bitstream(e));
        },
    };
    if count > limits.max_entities_create {
        return Err(
            CodecError::LimitsExceeded {
                kind: LimitKind::EntitiesCreate,
                limit: limits.max_entities_create,
                actual: count,
            },
        );
    }
    if comps.len() > limits.max_components_per_entity {
        return Err(
            CodecError::LimitsExceeded {
                kind: LimitKind::ComponentsPerEntity,
                limit: limits.max_components_per_entity,
                actual: comps.len(),
            },
        );
    }
    let ghost p2 = reader.pos();
    let ghost d = body@;
    let mut entities: Vec<EntitySnapshot> = Vec::new();
    let mut prev: u32 = 0;
    let mut k: usize = 0;
    while k < count
        invariant
            k <= count,
            reader.data() == d,
            d == body@,
            dec_create_section(d, comps@, *limits) == match dec_entities(d, p2, comps@, *limits, count as nat, 0, 0) {
                Err(e) => Err(e),
                Ok((es, p3)) => match r_align(d, p3) {
                    Err(e) => Err(CodecError::Bitstream(e)),
                    Ok(p4) => if rcap(d) - p4 != 0 {
                        Err(
                            CodecError::TrailingSectionData {
                                section: SectionTag::EntityCreate,
                                remaining_bits: (rcap(d) - p4) as usize,
                            },
                        )
                    } else {
                        Ok(es)
                    },
                },
            },
            dec_entities(d, p2, comps@, *limits, count as nat, 0, 0) == match dec_entities(
                d,
                reader.pos(),
                comps@,
                *limits,
                count as nat,
                k as nat,
                prev,
            ) {
                Err(e) => Err(e),
                Ok((rest, p4)) => Ok((entities_view(entities@) + rest, p4)),
            },
        decreases count - k,
    {
        if let Err(e) = reader.align_to_byte() {
            return Err(CodecError::Bitstream(e));
        }
        let id = match reader.read_u32_aligned() {
            Ok(v) => v,
            Err(e) => {
                return Err(CodecError::Bitstream(e));
            },
        };
        if k > 0 && id <= prev {
            return Err(CodecError::InvalidEntityOrder { previous: prev, current: id });
        }
        let components = decode_entity_components(comps, &mut reader, limits)?;
        let ghost before = entities@;
        let e = EntitySnapshot { id: EntityId::new(id), components };
        entities.push(e);
        proof {
            assert(entities_view(entities@) =~= entities_view(before).push(e@));
            let nxt = dec_entities(d, reader.pos(), comps@, *limits, count as nat, (k + 1) as nat, id);
            if let Ok((rest, p4)) = nxt {
                assert(entities_view(before) + (seq![e@] + rest) =~= entities_view(entities@) + rest);
            }
        }
        prev = id;
        k = k + 1;
    }
    assert(entities_view(entities@) + Seq::<EntityV>::empty() =~= entities_view(entities@));
    if let Err(e) = reader.align_to_byte() {
        return Err(CodecError::Bitstream(e));
    }
    let remaining = reader.bits_remaining();
    if remaining != 0 {
        return Err(
            CodecError::TrailingSectionData { section: SectionTag::EntityCreate, remaining_bits: remaining },
        );
    }
    Ok(entities)
}

/// Decoding the sections of a full snapshot from section `k` on; `acc`
/// holds the entities of a create section already seen.
pub open spec fn full_sections(
    comps: Seq<ComponentDef>,
    secs: Seq<(SectionTag, Seq<u8>)>,
    limits: CodecLimits,
    k: nat,
    acc: Option<Seq<EntityV>>,
) -> Result<Seq<EntityV>, CodecError>
    decreases secs.len() - k,
{
    if k >= secs.len() {
        match acc {
            Some(es) => Ok(es),
            None => Ok(Seq::empty()),
        }
    } else if secs[k as int].0 == SectionTag::EntityCreate {
        if acc is Some {
            Err(CodecError::DuplicateSection { section: secs[k as int].0 })
        } else {
            match dec_create_section(secs[k as int].1, comps, limits) {
                Err(e) => Err(e),
                Ok(es) => full_sections(comps, secs, limits, k + 1, Some(es)),
            }
        }
    } else {
        Err(CodecError::UnexpectedSection { section: secs[k as int].0 })
    }
}

/// What a decoded packet gives as a full snapshot.
pub open spec fn full_from_packet(
    comps: Seq<ComponentDef>,
    h: PacketHeader,
    secs: Seq<(SectionTag, Seq<u8>)>,
    limits: CodecLimits,
) -> Result<(SnapshotTick, Seq<EntityV>), CodecError> {
    if !crate::wire::has_full(h.flags.0) {
        Err(CodecError::Wire(crate::wire::DecodeError::InvalidFlags { flags: h.flags.0 }))
    } else if h.baseline_tick != 0 {
        Err(
            CodecError::Wire(
                crate::wire::DecodeError::InvalidBaselineTick { baseline_tick: h.baseline_tick, flags: h.flags.0 },
            ),
        )
    } else if h.schema_hash != hash_of(comps) {
        Err(CodecError::SchemaMismatch { expected: hash_of(comps), found: h.schema_hash })
    } else {
        match full_sections(comps, secs, limits, 0, None) {
            Err(e) => Err(e),
            Ok(es) => Ok((super::types::tick_of(h.tick), es)),
        }
    }
}

/// Decodes a full snapshot from an already decoded packet.
pub fn decode_full_snapshot_from_packet(schema: &Schema, packet: &WirePacket, limits: &CodecLimits) -> (r:
    CodecResult<Snapshot>)
    ensures
        match full_from_packet(schema.components@, packet.header, sections_view(packet.sections@), *limits) {
            Ok(v) => r is Ok && r->Ok_0@ == v,
            Err(e) => r == Err::<Snapshot, CodecError>(e),
        },
{
    let header = packet.header;
    if !header.flags.is_full_snapshot() {
        return Err(CodecError::Wire(crate::wire::DecodeError::InvalidFlags { flags: header.flags.raw() }));
    }
    if header.baseline_tick != 0 {
        return Err(
            CodecError::Wire(
                crate::wire::DecodeError::InvalidBaselineTick {
                    baseline_tick: header.baseline_tick,
                    flags: header.flags.raw(),
                },
            ),
        );
    }
    let expected = schema_hash(schema);
    if header.schema_hash != expected {
        return Err(CodecError::SchemaMismatch { expected, found: header.schema_hash });
    }
    let ghost secs = sections_view(packet.sections@);
    let n = packet.sections.len();
    let mut entities: Vec<EntitySnapshot> = Vec::new();
    let mut seen = false;
    let mut k: usize = 0;
    while k < n
        invariant
            n == packet.sections@.len(),
            secs == sections_view(packet.sections@),
            k <= n,
            !seen ==> entities@.len() == 0,
            header == packet.header,
            full_from_packet(schema.components@, packet.header, secs, *limits) == match full_sections(
                schema.components@,
                secs,
                *limits,
                0,
                None,
            ) {
                Err(e) => Err(e),
                Ok(es) => Ok((super::types::tick_of(header.tick), es)),
            },
            full_sections(schema.components@, secs, *limits, 0, None) == full_sections(
                schema.components@,
                secs,
                *limits,
                k as nat,
                if seen {
                    Some(entities_view(entities@))
                } else {
                    None
                },
            ),
        decreases n - k,
    {
        let section = &packet.sections[k];
        assert(secs[k as int] == (section.tag, section.body@));
        match section.tag {
            SectionTag::EntityCreate => {
                if seen {
                    return Err(CodecError::DuplicateSection { section: section.tag });
                }
                seen = true;
                entities = decode_create_section(&schema.components, section.body, limits)?;
            },
            _ => {
                return Err(CodecError::UnexpectedSection { section: section.tag });
            },
        }
        k = k + 1;
    }
    assert(!seen ==> entities_view(entities@) =~= Seq::<EntityV>::empty());
    Ok(Snapshot { tick: SnapshotTick::new(header.tick), entities })
}

/// Decodes a full snapshot packet.
pub fn decode_full_snapshot(
    schema: &Schema,
    bytes: &[u8],
    wire_limits: &crate::wire::Limits,
    limits: &CodecLimits,
) -> (r: CodecResult<Snapshot>)
    ensures
        match crate::wire::spec_decode_packet(bytes@, *wire_limits) {
            Err(e) => r == Err::<Snapshot, CodecError>(CodecError::Wire(e)),
            Ok((h, secs)) => match full_from_packet(schema.components@, h, secs, *limits) {
                Ok(v) => r is Ok && r->Ok_0@ == v,
                Err(e) => r == Err::<Snapshot, CodecError>(e),
            },
        },
{
    let packet = match decode_packet(bytes, wire_limits) {
        Ok(p) => p,
        Err(e) => {
            return Err(CodecError::Wire(e));
        },
    };
    decode_full_snapshot_from_packet(schema, &packet, limits)
}

} // verus!
