//! Decoding whole delta packets and applying them to a baseline.
use super::delta_dec::{
    dec_delta_create_section, dec_destroy_section, dec_masked_section, dec_sparse_section,
    decode_delta_create_section, decode_destroy_section, decode_update_section_masked,
    decode_update_section_sparse_packed, decode_update_section_sparse_varint, upd_comps_view,
    upd_entities_view, DeltaDecoded, DeltaUpdateComponent, DeltaUpdateEntity, UpdCompV, UpdEntV,
};
use super::diff::{ensure_entities_sorted, order_error};
use super::error::{CodecError, CodecResult, LimitKind, MaskKind, MaskReason};
use super::full::hash_of;
use super::limits::CodecLimits;
use super::model::FieldValue;
use super::snapshot::{
    clone_entities, components_view, entities_view, find_comp, find_component, ComponentSnapshot,
    ComponentV, EntitySnapshot,
    EntityV, Snapshot,
};
use super::types::{lemma_tick_of, tick_of, EntityId, SnapshotTick};
use crate::schema::{schema_hash, ComponentDef, ComponentId, Schema};
use crate::wire::{decode_packet, has_delta, sections_view, DecodeError, PacketHeader, SectionTag, WirePacket};
use vstd::prelude::*;

verus! {

// ---------------------------------------------------------------------------
// Sections of a delta packet.
/// What the sections of a delta packet decode to so far: destroys, creates,
/// masked updates and sparse updates, each once at most.
pub type SecsState = (Option<Seq<EntityId>>, Option<Seq<EntityV>>, Option<Seq<UpdEntV>>, Option<Seq<UpdEntV>>);

/// Decoding the sections `k..` of a delta packet.
pub open spec fn delta_secs_from(
    comps: Seq<ComponentDef>,
    secs: Seq<(SectionTag, Seq<u8>)>,
    limits: CodecLimits,
    k: nat,
    st: SecsState,
) -> Result<SecsState, CodecError>
    decreases secs.len() - k,
{
    if k >= secs.len() {
        Ok(st)
    } else {
        let (tag, body) = secs[k as int];
        let dup = CodecError::DuplicateSection { section: tag };
        match tag {
            SectionTag::EntityDestroy => if st.0 is Some {
                Err(dup)
            } else {
                match dec_destroy_section(body, limits) {
                    Err(e) => Err(e),
                    Ok(v) => delta_secs_from(comps, secs, limits, k + 1, (Some(v), st.1, st.2, st.3)),
                }
            },
            SectionTag::EntityCreate => if st.1 is Some {
                Err(dup)
            } else {
                match dec_delta_create_section(body, comps, limits) {
                    Err(e) => Err(e),
                    Ok(v) => delta_secs_from(comps, secs, limits, k + 1, (st.0, Some(v), st.2, st.3)),
                }
            },
            SectionTag::EntityUpdate => if st.2 is Some {
                Err(dup)
            } else {
                match dec_masked_section(body, comps, limits) {
                    Err(e) => Err(e),
                    Ok(v) => delta_secs_from(comps, secs, limits, k + 1, (st.0, st.1, Some(v), st.3)),
                }
            },
            SectionTag::EntityUpdateSparse => if st.3 is Some {
                Err(dup)
            } else {
                match dec_sparse_section(body, comps, limits, false) {
                    Err(e) => Err(e),
                    Ok(v) => delta_secs_from(comps, secs, limits, k + 1, (st.0, st.1, st.2, Some(v))),
                }
            },
            SectionTag::EntityUpdateSparsePacked => if st.3 is Some {
                Err(dup)
            } else {
                match dec_sparse_section(body, comps, limits, true) {
                    Err(e) => Err(e),
                    Ok(v) => delta_secs_from(comps, secs, limits, k + 1, (st.0, st.1, st.2, Some(v))),
                }
            },
            _ => Err(CodecError::UnexpectedSection { section: tag }),
        }
    }
}

/// The destroys, creates and updates of a delta packet's sections.
pub open spec fn delta_secs(comps: Seq<ComponentDef>, secs: Seq<(SectionTag, Seq<u8>)>, limits: CodecLimits) -> Result<
    (Seq<EntityId>, Seq<EntityV>, Seq<UpdEntV>),
    CodecError,
> {
    match delta_secs_from(comps, secs, limits, 0, (None, None, None, None)) {
        Err(e) => Err(e),
        Ok(st) => {
            let ds = match st.0 {
                Some(v) => v,
                None => Seq::empty(),
            };
            let cs = match st.1 {
                Some(v) => v,
                None => Seq::empty(),
            };
            match (st.2, st.3) {
                (Some(_), Some(_)) => Err(CodecError::DuplicateUpdateEncoding),
                (Some(u), None) => Ok((ds, cs, u)),
                (None, Some(u)) => Ok((ds, cs, u)),
                (None, None) => Ok((ds, cs, Seq::empty())),
            }
        },
    }
}

fn decode_delta_sections(comps: &Vec<ComponentDef>, packet: &WirePacket, limits: &CodecLimits) -> (r: CodecResult<
    (Vec<EntityId>, Vec<EntitySnapshot>, Vec<DeltaUpdateEntity>),
>)
    ensures
        match delta_secs(comps@, sections_view(packet.sections@), *limits) {
            Ok((ds, cs, us)) => r is Ok && r->Ok_0.0@ == ds && entities_view(r->Ok_0.1@) == cs
                && upd_entities_view(r->Ok_0.2@) == us,
            Err(e) => r is Err && r->Err_0 == e,
        },
{
    let ghost secs = sections_view(packet.sections@);
    let mut destroys: Option<Vec<EntityId>> = None;
    let mut creates: Option<Vec<EntitySnapshot>> = None;
    let mut masked: Option<Vec<DeltaUpdateEntity>> = None;
    let mut sparse: Option<Vec<DeltaUpdateEntity>> = None;
    let n = packet.sections.len();
    let mut k: usize = 0;
    while k < n
        invariant
            n == packet.sections@.len(),
            secs == sections_view(packet.sections@),
            k <= n,
            delta_secs_from(comps@, secs, *limits, 0, (None, None, None, None)) == delta_secs_from(
                comps@,
                secs,
                *limits,
                k as nat,
                (
                    match destroys {
                        Some(v) => Some(v@),
                        None => None,
                    },
                    match creates {
                        Some(v) => Some(entities_view(v@)),
                        None => None,
                    },
                    match masked {
                        Some(v) => Some(upd_entities_view(v@)),
                        None => None,
                    },
                    match sparse {
                        Some(v) => Some(upd_entities_view(v@)),
                        None => None,
                    },
                ),
            ),
        decreases n - k,
    {
        let section = &packet.sections[k];
        assert(secs[k as int] == (section.tag, section.body@));
        match section.tag {
            SectionTag::EntityDestroy => {
                if destroys.is_some() {
                    return Err(CodecError::DuplicateSection { section: section.tag });
                }
                destroys = Some(decode_destroy_section(section.body, limits)?);
            },
            SectionTag::EntityCreate => {
                if creates.is_some() {
                    return Err(CodecError::DuplicateSection { section: section.tag });
                }
                creates = Some(decode_delta_create_section(comps, section.body, limits)?);
            },
            SectionTag::EntityUpdate => {
                if masked.is_some() {
                    return Err(CodecError::DuplicateSection { section: section.tag });
                }
                masked = Some(decode_update_section_masked(comps, section.body, limits)?);
            },
            SectionTag::EntityUpdateSparse => {
                if sparse.is_some() {
                    return Err(CodecError::DuplicateSection { section: section.tag });
                }
                sparse = Some(decode_update_section_sparse_varint(comps, section.body, limits)?);
            },
            SectionTag::EntityUpdateSparsePacked => {
                if sparse.is_some() {
                    return Err(CodecError::DuplicateSection { section: section.tag });
                }
                sparse = Some(decode_update_section_sparse_packed(comps, section.body, limits)?);
            },
            _ => {
                return Err(CodecError::UnexpectedSection { section: section.tag });
            },
        }
        k = k + 1;
    }
    let ds = match destroys {
        Some(v) => v,
        None => Vec::new(),
    };
    let cs = match creates {
        Some(v) => v,
        None => {
            let v: Vec<EntitySnapshot> = Vec::new();
            assert(entities_view(v@) =~= Seq::<EntityV>::empty());
            v
        },
    };
    let us = match (masked, sparse) {
        (Some(_), Some(_)) => {
            return Err(CodecError::DuplicateUpdateEncoding);
        },
        (Some(u), None) => u,
        (None, Some(u)) => u,
        (None, None) => {
            let v: Vec<DeltaUpdateEntity> = Vec::new();
            assert(upd_entities_view(v@) =~= Seq::<UpdEntV>::empty());
            v
        },
    };
    Ok((ds, cs, us))
}

/// A delta packet's header checks before its sections are read.
pub open spec fn delta_header_error(h: PacketHeader, comps: Seq<ComponentDef>) -> Option<CodecError> {
    if !has_delta(h.flags.0) {
        Some(CodecError::Wire(DecodeError::InvalidFlags { flags: h.flags.0 }))
    } else if h.baseline_tick == 0 {
        Some(CodecError::Wire(DecodeError::InvalidBaselineTick { baseline_tick: 0, flags: h.flags.0 }))
    } else {
        None
    }
}

/// What a decoded delta packet holds.
pub open spec fn delta_decoded(comps: Seq<ComponentDef>, h: PacketHeader, secs: Seq<(SectionTag, Seq<u8>)>, limits: CodecLimits) -> Result<
    (SnapshotTick, SnapshotTick, Seq<EntityId>, Seq<EntityV>, Seq<UpdEntV>),
    CodecError,
> {
    if delta_header_error(h, comps) is Some {
        Err(delta_header_error(h, comps)->Some_0)
    } else if h.schema_hash != hash_of(comps) {
        Err(CodecError::SchemaMismatch { expected: hash_of(comps), found: h.schema_hash })
    } else {
        match delta_secs(comps, secs, limits) {
            Err(e) => Err(e),
            Ok((ds, cs, us)) => Ok((tick_of(h.tick), tick_of(h.baseline_tick), ds, cs, us)),
        }
    }
}

/// Decodes a delta packet into its destroys, creates and updates.
pub fn decode_delta_packet(schema: &Schema, packet: &WirePacket, limits: &CodecLimits) -> (r: CodecResult<DeltaDecoded>)
    ensures
        match delta_decoded(schema.components@, packet.header, sections_view(packet.sections@), *limits) {
            Ok((t, bt, ds, cs, us)) => r is Ok && r->Ok_0.tick == t && r->Ok_0.baseline_tick == bt && r->Ok_0.destroys@ == ds
                && entities_view(r->Ok_0.creates@) == cs && upd_entities_view(r->Ok_0.updates@) == us,
            Err(e) => r is Err && r->Err_0 == e,
        },
        r matches Ok(d) ==> d.tick@ == packet.header.tick && d.baseline_tick@ == packet.header.baseline_tick,
{
    let header = packet.header;
    if !header.flags.is_delta_snapshot() {
        return Err(CodecError::Wire(DecodeError::InvalidFlags { flags: header.flags.raw() }));
    }
    if header.baseline_tick == 0 {
        return Err(
            CodecError::Wire(DecodeError::InvalidBaselineTick { baseline_tick: header.baseline_tick, flags: header.flags.raw() }),
        );
    }
    let expected = schema_hash(schema);
    if header.schema_hash != expected {
        return Err(CodecError::SchemaMismatch { expected, found: header.schema_hash });
    }
    let (destroys, creates, updates) = decode_delta_sections(&schema.components, packet, limits)?;
    Ok(
        DeltaDecoded {
            tick: SnapshotTick::new(header.tick),
            baseline_tick: SnapshotTick::new(header.baseline_tick),
            destroys,
            creates,
            updates,
        },
    )
}

// ---------------------------------------------------------------------------
// Applying destroys, creates and updates.
/// Walking the baseline and the destroyed ids together: the entities kept,
/// or the first destroyed id with no entity.
pub open spec fn destroy_walk(b: Seq<EntityV>, ds: Seq<EntityId>, i: nat, j: nat, acc: Seq<EntityV>) -> Result<
    Seq<EntityV>,
    CodecError,
>
    decreases (if i < b.len() {
        b.len() - i
    } else {
        0
    }) + (if j < ds.len() {
        ds.len() - j
    } else {
        0
    }),
{
    if i < b.len() && j < ds.len() {
        if b[i as int].0@ < ds[j as int]@ {
            destroy_walk(b, ds, i + 1, j, acc.push(b[i as int]))
        } else if b[i as int].0@ > ds[j as int]@ {
            Err(CodecError::EntityNotFound { entity_id: ds[j as int]@ })
        } else {
            destroy_walk(b, ds, i + 1, j + 1, acc)
        }
    } else if i < b.len() {
        destroy_walk(b, ds, i + 1, j, acc.push(b[i as int]))
    } else if j < ds.len() {
        Err(CodecError::EntityNotFound { entity_id: ds[j as int]@ })
    } else {
        Ok(acc)
    }
}

/// Removes destroyed entities from a baseline (both sorted by id).
pub fn apply_destroys(baseline: &[EntitySnapshot], destroys: &[EntityId]) -> (r: CodecResult<Vec<EntitySnapshot>>)
    ensures
        match destroy_walk(entities_view(baseline@), destroys@, 0, 0, Seq::empty()) {
            Ok(es) => r is Ok && entities_view(r->Ok_0@) == es,
            Err(e) => r is Err && r->Err_0 == e,
        },
{
    let ghost b = entities_view(baseline@);
    let mut result: Vec<EntitySnapshot> = Vec::new();
    let bn = baseline.len();
    let dn = destroys.len();
    let mut i: usize = 0;
    let mut j: usize = 0;
    assert(entities_view(result@) =~= Seq::<EntityV>::empty());
    while i < bn || j < dn
        invariant
            bn == baseline@.len(),
            dn == destroys@.len(),
            b == entities_view(baseline@),
            i <= bn,
            j <= dn,
            destroy_walk(b, destroys@, 0, 0, Seq::empty()) == destroy_walk(b, destroys@, i as nat, j as nat, entities_view(result@)),
        decreases bn + dn - i - j,
    {
        if i < bn && j < dn {
            let bid = baseline[i].id.raw();
            let did = destroys[j].raw();
            if bid < did {
                let e = baseline[i].clone();
                let ghost before = result@;
                result.push(e);
                proof {
                    assert(entities_view(result@) =~= entities_view(before).push(b[i as int]));
                }
                i = i + 1;
            } else if bid > did {
                return Err(CodecError::EntityNotFound { entity_id: did });
            } else {
                i = i + 1;
                j = j + 1;
            }
        } else if i < bn {
            let e = baseline[i].clone();
            let ghost before = result@;
            result.push(e);
            proof {
                assert(entities_view(result@) =~= entities_view(before).push(b[i as int]));
            }
            i = i + 1;
        } else {
            return Err(CodecError::EntityNotFound { entity_id: destroys[j].raw() });
        }
    }
    Ok(result)
}

/// Merging the kept entities with the created ones by id.
pub open spec fn create_walk(b: Seq<EntityV>, cs: Seq<EntityV>, i: nat, j: nat, acc: Seq<EntityV>) -> Result<
    Seq<EntityV>,
    CodecError,
>
    decreases (if i < b.len() {
        b.len() - i
    } else {
        0
    }) + (if j < cs.len() {
        cs.len() - j
    } else {
        0
    }),
{
    if i < b.len() && j < cs.len() {
        if b[i as int].0@ < cs[j as int].0@ {
            create_walk(b, cs, i + 1, j, acc.push(b[i as int]))
        } else if b[i as int].0@ > cs[j as int].0@ {
            create_walk(b, cs, i, j + 1, acc.push(cs[j as int]))
        } else {
            Err(CodecError::EntityAlreadyExists { entity_id: cs[j as int].0@ })
        }
    } else if i < b.len() {
        create_walk(b, cs, i + 1, j, acc.push(b[i as int]))
    } else if j < cs.len() {
        create_walk(b, cs, i, j + 1, acc.push(cs[j as int]))
    } else {
        Ok(acc)
    }
}

/// Merges created entities into the kept ones (both sorted by id).
pub fn apply_creates(baseline: Vec<EntitySnapshot>, creates: Vec<EntitySnapshot>) -> (r: CodecResult<Vec<EntitySnapshot>>)
    ensures
        match create_walk(entities_view(baseline@), entities_view(creates@), 0, 0, Seq::empty()) {
            Ok(es) => r is Ok && entities_view(r->Ok_0@) == es,
            Err(e) => r is Err && r->Err_0 == e,
        },
{
    let ghost b = entities_view(baseline@);
    let ghost c = entities_view(creates@);
    let mut result: Vec<EntitySnapshot> = Vec::new();
    let bn = baseline.len();
    let cn = creates.len();
    let mut i: usize = 0;
    let mut j: usize = 0;
    assert(entities_view(result@) =~= Seq::<EntityV>::empty());
    while i < bn || j < cn
        invariant
            bn == baseline@.len(),
            cn == creates@.len(),
            b == entities_view(baseline@),
            c == entities_view(creates@),
            i <= bn,
            j <= cn,
            create_walk(b, c, 0, 0, Seq::empty()) == create_walk(b, c, i as nat, j as nat, entities_view(result@)),
        decreases bn + cn - i - j,
    {
        let ghost before = result@;
        if i < bn && j < cn {
            let bid = baseline[i].id.raw();
            let cid = creates[j].id.raw();
            if bid < cid {
                result.push(baseline[i].clone());
                proof {
                    assert(entities_view(result@) =~= entities_view(before).push(b[i as int]));
                }
                i = i + 1;
            } else if bid > cid {
                result.push(creates[j].clone());
                proof {
                    assert(entities_view(result@) =~= entities_view(before).push(c[j as int]));
                }
                j = j + 1;
            } else {
                return Err(CodecError::EntityAlreadyExists { entity_id: cid });
            }
        } else if i < bn {
            result.push(baseline[i].clone());
            proof {
                assert(entities_view(result@) =~= entities_view(before).push(b[i as int]));
            }
            i = i + 1;
        } else {
            result.push(creates[j].clone());
            proof {
                assert(entities_view(result@) =~= entities_view(before).push(c[j as int]));
            }
            j = j + 1;
        }
    }
    Ok(result)
}

// ---------------------------------------------------------------------------
// Order of entities.
/// Entity ids strictly increase.
pub open spec fn ids_sorted(es: Seq<EntityV>) -> bool {
    forall|i: int, j: int| 0 <= i < j < es.len() ==> es[i].0@ < es[j].0@
}

/// Entities that pass the order check have strictly increasing ids.
pub proof fn lemma_order_sorted(es: Seq<EntityV>)
    requires
        order_error(es, 0) is None,
    ensures
        ids_sorted(es),
{
    lemma_order_from(es, 0);
    assert forall|i: int, j: int| 0 <= i < j < es.len() implies es[i].0@ < es[j].0@ by {
        lemma_adjacent_chain(es, i, j);
    }
}

proof fn lemma_order_from(es: Seq<EntityV>, k: nat)
    requires
        order_error(es, k) is None,
    ensures
        forall|m: int| k <= m && 0 < m < es.len() ==> #[trigger] es[m].0@ > es[m - 1].0@,
    decreases es.len() - k,
{
    if k < es.len() {
        lemma_order_from(es, k + 1);
    }
}

proof fn lemma_adjacent_chain(es: Seq<EntityV>, i: int, j: int)
    requires
        0 <= i < j < es.len(),
        forall|m: int| 0 < m < es.len() ==> #[trigger] es[m].0@ > es[m - 1].0@,
    ensures
        es[i].0@ < es[j].0@,
    decreases j - i,
{
    if j > i + 1 {
        lemma_adjacent_chain(es, i, j - 1);
    }
    assert(es[j].0@ > es[j - 1].0@);
}

/// Removing destroyed entities keeps ids increasing.
proof fn lemma_destroy_sorted(b: Seq<EntityV>, ds: Seq<EntityId>, i: nat, j: nat, acc: Seq<EntityV>)
    requires
        ids_sorted(b),
        ids_sorted(acc),
        acc.len() > 0 && i < b.len() ==> acc.last().0@ < b[i as int].0@,
    ensures
        destroy_walk(b, ds, i, j, acc) matches Ok(es) ==> ids_sorted(es),
    decreases (if i < b.len() {
        b.len() - i
    } else {
        0
    }) + (if j < ds.len() {
        ds.len() - j
    } else {
        0
    }),
{
    if i < b.len() {
        if j < ds.len() && b[i as int].0@ > ds[j as int]@ {
        } else if j < ds.len() && b[i as int].0@ == ds[j as int]@ {
            lemma_destroy_sorted(b, ds, i + 1, j + 1, acc);
        } else {
            let acc2 = acc.push(b[i as int]);
            assert forall|x: int, y: int| 0 <= x < y < acc2.len() implies acc2[x].0@ < acc2[y].0@ by {
                if y == acc.len() && x < acc.len() {
                    assert(acc.last() == acc[acc.len() - 1]);
                    if x < acc.len() - 1 {
                        assert(acc[x].0@ < acc[acc.len() - 1].0@);
                    }
                }
            }
            lemma_destroy_sorted(b, ds, i + 1, j, acc2);
        }
    }
}

/// Merging sorted entity lists by id keeps ids increasing.
proof fn lemma_create_sorted(b: Seq<EntityV>, cs: Seq<EntityV>, i: nat, j: nat, acc: Seq<EntityV>)
    requires
        ids_sorted(b),
        ids_sorted(cs),
        ids_sorted(acc),
        acc.len() > 0 && i < b.len() ==> acc.last().0@ < b[i as int].0@,
        acc.len() > 0 && j < cs.len() ==> acc.last().0@ < cs[j as int].0@,
    ensures
        create_walk(b, cs, i, j, acc) matches Ok(es) ==> ids_sorted(es),
    decreases (if i < b.len() {
        b.len() - i
    } else {
        0
    }) + (if j < cs.len() {
        cs.len() - j
    } else {
        0
    }),
{
    let take_b = i < b.len() && (j >= cs.len() || b[i as int].0@ < cs[j as int].0@);
    let take_c = j < cs.len() && (i >= b.len() || b[i as int].0@ > cs[j as int].0@);
    if take_b || take_c {
        let e = if take_b {
            b[i as int]
        } else {
            cs[j as int]
        };
        let acc2 = acc.push(e);
        assert forall|x: int, y: int| 0 <= x < y < acc2.len() implies acc2[x].0@ < acc2[y].0@ by {
            if y == acc.len() && x < acc.len() {
                assert(acc.last() == acc[acc.len() - 1]);
                if x < acc.len() - 1 {
                    assert(acc[x].0@ < acc[acc.len() - 1].0@);
                }
            }
        }
        if take_b {
            lemma_create_sorted(b, cs, i + 1, j, acc2);
        } else {
            lemma_create_sorted(b, cs, i, j + 1, acc2);
        }
    }
}

// ---------------------------------------------------------------------------
// Updates.
/// Index of the first entity with id `id`, searching from `i`.
pub open spec fn entity_from(es: Seq<EntityV>, id: u32, i: nat) -> Option<nat>
    decreases es.len() - i,
{
    if i >= es.len() {
        None
    } else if es[i as int].0@ == id {
        Some(i)
    } else {
        entity_from(es, id, i + 1)
    }
}

/// Writes changed values into a component's fields, in order.
pub open spec fn set_fields(fs: Seq<FieldValue>, ups: Seq<(usize, FieldValue)>, id: ComponentId, k: nat) -> Result<
    Seq<FieldValue>,
    CodecError,
>
    decreases ups.len() - k,
{
    if k >= ups.len() {
        Ok(fs)
    } else if ups[k as int].0 >= fs.len() {
        Err(
            CodecError::InvalidMask {
                kind: MaskKind::FieldMask { component: id },
                reason: MaskReason::FieldCountMismatch {
                    expected: fs.len() as usize,
                    actual: ups[k as int].0.saturating_add(1),
                },
            },
        )
    } else {
        set_fields(fs.update(ups[k as int].0 as int, ups[k as int].1), ups, id, k + 1)
    }
}

/// Applies component updates to an entity's components, in order.
pub open spec fn update_comps(cs: Seq<ComponentV>, eid: u32, ups: Seq<UpdCompV>, k: nat) -> Result<
    Seq<ComponentV>,
    CodecError,
>
    decreases ups.len() - k,
{
    if k >= ups.len() {
        Ok(cs)
    } else {
        match find_comp(cs, ups[k as int].0) {
            None => Err(CodecError::ComponentNotFound { entity_id: eid, component_id: ups[k as int].0@ }),
            Some(ci) => match set_fields(cs[ci as int].1, ups[k as int].1, ups[k as int].0, 0) {
                Err(e) => Err(e),
                Ok(fs) => update_comps(cs.update(ci as int, (cs[ci as int].0, fs)), eid, ups, k + 1),
            },
        }
    }
}

/// Applies entity updates to a list of entities, in order.
pub open spec fn update_entities(es: Seq<EntityV>, ups: Seq<UpdEntV>, k: nat) -> Result<Seq<EntityV>, CodecError>
    decreases ups.len() - k,
{
    if k >= ups.len() {
        Ok(es)
    } else {
        let u = ups[k as int];
        match entity_from(es, u.0@, 0) {
            None => Err(CodecError::EntityNotFound { entity_id: u.0@ }),
            Some(i) => match update_comps(es[i as int].1, u.0@, u.1, 0) {
                Err(e) => Err(e),
                Ok(cs) => update_entities(es.update(i as int, (es[i as int].0, cs)), ups, k + 1),
            },
        }
    }
}

proof fn lemma_entity_from(es: Seq<EntityV>, id: u32, i: nat)
    ensures
        entity_from(es, id, i) matches Some(k) ==> i <= k < es.len() && es[k as int].0@ == id,
        entity_from(es, id, i) is None ==> forall|m: int| i <= m < es.len() ==> es[m].0@ != id,
    decreases es.len() - i,
{
    if i < es.len() {
        lemma_entity_from(es, id, i + 1);
    }
}

proof fn lemma_entity_first(es: Seq<EntityV>, id: u32, i: nat, m: nat)
    requires
        i <= m < es.len(),
        es[m as int].0@ == id,
        forall|x: int| i <= x < m ==> es[x].0@ != id,
    ensures
        entity_from(es, id, i) == Some(m),
    decreases m - i,
{
    if i < m {
        lemma_entity_first(es, id, i + 1, m);
    }
}

/// Finds an entity by id among entities sorted by id.
fn search_entity(entities: &Vec<EntitySnapshot>, id: u32) -> (r: Option<usize>)
    requires
        ids_sorted(entities_view(entities@)),
    ensures
        r matches Some(i) ==> entity_from(entities_view(entities@), id, 0) == Some(i as nat) && i < entities@.len(),
        r is None ==> entity_from(entities_view(entities@), id, 0) is None,
{
    let ghost es = entities_view(entities@);
    proof {
        lemma_entity_from(es, id, 0);
    }
    let mut lo: usize = 0;
    let mut hi: usize = entities.len();
    while lo < hi
        invariant
            es == entities_view(entities@),
            ids_sorted(es),
            lo <= hi <= es.len(),
            forall|m: int| 0 <= m < lo ==> es[m].0@ < id,
            forall|m: int| hi <= m < es.len() ==> es[m].0@ > id,
        decreases hi - lo,
    {
        let mid = lo + (hi - lo) / 2;
        let mid_id = entities[mid].id.raw();
        assert(es[mid as int].0@ == mid_id);
        if mid_id < id {
            assert forall|m: int| 0 <= m <= mid implies es[m].0@ < id by {
                if m < mid {
                    assert(es[m].0@ < es[mid as int].0@);
                }
            }
            lo = mid + 1;
        } else if mid_id > id {
            assert forall|m: int| mid <= m < es.len() implies es[m].0@ > id by {
                if m > mid {
                    assert(es[mid as int].0@ < es[m].0@);
                }
            }
            hi = mid;
        } else {
            assert forall|x: int| 0 <= x < mid implies es[x].0@ != id by {
                assert(es[x].0@ < es[mid as int].0@);
            }
            proof {
                lemma_entity_first(es, id, 0, mid as nat);
            }
            return Some(mid);
        }
    }
    None
}

/// Writes changed values into one component.
fn apply_field_updates(component: &mut ComponentSnapshot, id: ComponentId, fields: &Vec<(usize, FieldValue)>) -> (r:
    CodecResult<()>)
    ensures
        final(component).id == old(component).id,
        match set_fields(old(component).fields@, fields@, id, 0) {
            Ok(fs) => r is Ok && final(component).fields@ == fs,
            Err(e) => r == Err::<(), CodecError>(e),
        },
{
    let n = fields.len();
    let mut k: usize = 0;
    while k < n
        invariant
            n == fields@.len(),
            k <= n,
            component.id == old(component).id,
            set_fields(old(component).fields@, fields@, id, 0) == set_fields(component.fields@, fields@, id, k as nat),
        decreases n - k,
    {
        let (idx, value) = fields[k];
        if idx >= component.fields.len() {
            return Err(
                CodecError::InvalidMask {
                    kind: MaskKind::FieldMask { component: id },
                    reason: MaskReason::FieldCountMismatch {
                        expected: component.fields.len(),
                        actual: idx.saturating_add(1),
                    },
                },
            );
        }
        component.fields.set(idx, value);
        k = k + 1;
    }
    Ok(())
}

/// Applies one entity's component updates.
fn apply_entity_update(entity: &mut EntitySnapshot, update: &DeltaUpdateEntity) -> (r: CodecResult<()>)
    ensures
        final(entity).id == old(entity).id,
        match update_comps(old(entity)@.1, update.id@, update@.1, 0) {
            Ok(cs) => r is Ok && final(entity)@.1 == cs,
            Err(e) => r == Err::<(), CodecError>(e),
        },
{
    let ghost ups = update@.1;
    let eid = update.id.raw();
    let n = update.components.len();
    let mut k: usize = 0;
    while k < n
        invariant
            n == update.components@.len(),
            ups == update@.1,
            eid == update.id@,
            k <= n,
            entity.id == old(entity).id,
            update_comps(old(entity)@.1, eid, ups, 0) == update_comps(entity@.1, eid, ups, k as nat),
        decreases n - k,
    {
        let cu = &update.components[k];
        assert(ups[k as int] == cu@);
        let found = find_component(&*entity, cu.id);
        match found {
            None => {
                return Err(CodecError::ComponentNotFound { entity_id: eid, component_id: cu.id.get() });
            },
            Some(ci) => {
                let ghost before = entity.components@;
                let res = apply_field_updates(&mut entity.components[ci], cu.id, &cu.fields);
                proof {
                    assert(components_view(before)[ci as int] == before[ci as int]@);
                }
                match res {
                    Err(e) => {
                        return Err(e);
                    },
                    Ok(()) => {
                        proof {
                            assert(components_view(entity.components@) =~= components_view(before).update(
                                ci as int,
                                (components_view(before)[ci as int].0, entity.components@[ci as int].fields@),
                            ));
                        }
                    },
                }
            },
        }
        k = k + 1;
    }
    Ok(())
}

/// Applies entity updates to entities sorted by id.
pub fn apply_updates(entities: &mut Vec<EntitySnapshot>, updates: &[DeltaUpdateEntity]) -> (r: CodecResult<()>)
    requires
        ids_sorted(entities_view(old(entities)@)),
    ensures
        match update_entities(entities_view(old(entities)@), upd_entities_view(updates@), 0) {
            Ok(es) => r is Ok && entities_view(final(entities)@) == es,
            Err(e) => r == Err::<(), CodecError>(e),
        },
{
    let ghost ups = upd_entities_view(updates@);
    let n = updates.len();
    let mut k: usize = 0;
    while k < n
        invariant
            n == updates@.len(),
            ups == upd_entities_view(updates@),
            k <= n,
            ids_sorted(entities_view(entities@)),
            update_entities(entities_view(old(entities)@), ups, 0) == update_entities(
                entities_view(entities@),
                ups,
                k as nat,
            ),
        decreases n - k,
    {
        let update = &updates[k];
        assert(ups[k as int] == update@);
        let id = update.id.raw();
        match search_entity(entities, id) {
            None => {
                return Err(CodecError::EntityNotFound { entity_id: id });
            },
            Some(idx) => {
                let ghost before = entities@;
                let ghost bv = entities_view(before);
                let res = apply_entity_update(&mut entities[idx], update);
                proof {
                    assert(bv[idx as int] == before[idx as int]@);
                }
                match res {
                    Err(e) => {
                        return Err(e);
                    },
                    Ok(()) => {
                        proof {
                            let nv = entities_view(entities@);
                            assert(nv =~= bv.update(idx as int, (bv[idx as int].0, entities@[idx as int]@.1)));
                            assert forall|x: int, y: int| 0 <= x < y < nv.len() implies nv[x].0@ < nv[y].0@ by {
                                assert(nv[x].0 == bv[x].0);
                                assert(nv[y].0 == bv[y].0);
                            }
                        }
                    },
                }
            },
        }
        k = k + 1;
    }
    Ok(())
}

// ---------------------------------------------------------------------------
// Applying a delta packet.
/// Applying merged entities' updates once the entity limit is checked.
pub open spec fn apply_merged(merged: Seq<EntityV>, us: Seq<UpdEntV>, limits: CodecLimits) -> Result<Seq<EntityV>, CodecError> {
    if merged.len() > limits.max_total_entities_after_apply {
        Err(
            CodecError::LimitsExceeded {
                kind: LimitKind::TotalEntitiesAfterApply,
                limit: limits.max_total_entities_after_apply,
                actual: merged.len() as usize,
            },
        )
    } else {
        update_entities(merged, us, 0)
    }
}

/// The entities after a delta's destroys, creates and updates.
pub open spec fn changes_result(base: Seq<EntityV>, ds: Seq<EntityId>, cs: Seq<EntityV>, us: Seq<UpdEntV>, limits: CodecLimits) -> Result<
    Seq<EntityV>,
    CodecError,
> {
    if order_error(base, 0) is Some {
        Err(order_error(base, 0)->Some_0)
    } else if order_error(cs, 0) is Some {
        Err(order_error(cs, 0)->Some_0)
    } else {
        match destroy_walk(base, ds, 0, 0, Seq::empty()) {
            Err(e) => Err(e),
            Ok(kept) => match create_walk(kept, cs, 0, 0, Seq::empty()) {
                Err(e) => Err(e),
                Ok(merged) => apply_merged(merged, us, limits),
            },
        }
    }
}

/// The snapshot a delta packet turns a baseline into.
pub open spec fn applied(
    comps: Seq<ComponentDef>,
    base: (SnapshotTick, Seq<EntityV>),
    h: PacketHeader,
    secs: Seq<(SectionTag, Seq<u8>)>,
    limits: CodecLimits,
) -> Result<(SnapshotTick, Seq<EntityV>), CodecError> {
    if delta_header_error(h, comps) is Some {
        Err(delta_header_error(h, comps)->Some_0)
    } else if h.baseline_tick != base.0@ {
        Err(CodecError::BaselineTickMismatch { expected: base.0@, found: h.baseline_tick })
    } else if h.schema_hash != hash_of(comps) {
        Err(CodecError::SchemaMismatch { expected: hash_of(comps), found: h.schema_hash })
    } else {
        match delta_secs(comps, secs, limits) {
            Err(e) => Err(e),
            Ok((ds, cs, us)) => match changes_result(base.1, ds, cs, us, limits) {
                Err(e) => Err(e),
                Ok(es) => Ok((tick_of(h.tick), es)),
            },
        }
    }
}

/// Applies a parsed delta packet to its baseline snapshot.
pub fn apply_delta_snapshot_from_packet(schema: &Schema, baseline: &Snapshot, packet: &WirePacket, limits: &CodecLimits) -> (r:
    CodecResult<Snapshot>)
    ensures
        match applied(schema.components@, baseline@, packet.header, sections_view(packet.sections@), *limits) {
            Ok(v) => r is Ok && r->Ok_0@ == v,
            Err(e) => r == Err::<Snapshot, CodecError>(e),
        },
{
    let header = packet.header;
    if !header.flags.is_delta_snapshot() {
        return Err(CodecError::Wire(DecodeError::InvalidFlags { flags: header.flags.raw() }));
    }
    if header.baseline_tick == 0 {
        return Err(
            CodecError::Wire(DecodeError::InvalidBaselineTick { baseline_tick: header.baseline_tick, flags: header.flags.raw() }),
        );
    }
    if header.baseline_tick != baseline.tick.raw() {
        return Err(CodecError::BaselineTickMismatch { expected: baseline.tick.raw(), found: header.baseline_tick });
    }
    let expected = schema_hash(schema);
    if header.schema_hash != expected {
        return Err(CodecError::SchemaMismatch { expected, found: header.schema_hash });
    }
    let (destroys, creates, updates) = decode_delta_sections(&schema.components, packet, limits)?;
    let ghost base = entities_view(baseline.entities@);
    let ghost cv = entities_view(creates@);
    ensure_entities_sorted(&baseline.entities)?;
    ensure_entities_sorted(&creates)?;
    proof {
        lemma_order_sorted(base);
        lemma_order_sorted(cv);
        lemma_destroy_sorted(base, destroys@, 0, 0, Seq::empty());
    }
    let kept = apply_destroys(&baseline.entities, &destroys)?;
    proof {
        lemma_create_sorted(entities_view(kept@), cv, 0, 0, Seq::empty());
    }
    let mut remaining = apply_creates(kept, creates)?;
    if remaining.len() > limits.max_total_entities_after_apply {
        return Err(
            CodecError::LimitsExceeded {
                kind: LimitKind::TotalEntitiesAfterApply,
                limit: limits.max_total_entities_after_apply,
                actual: remaining.len(),
            },
        );
    }
    apply_updates(&mut remaining, &updates)?;
    Ok(Snapshot { tick: SnapshotTick::new(header.tick), entities: remaining })
}

/// Decodes a delta packet and applies it to its baseline snapshot.
pub fn apply_delta_snapshot(
    schema: &Schema,
    baseline: &Snapshot,
    bytes: &[u8],
    wire_limits: &crate::wire::Limits,
    limits: &CodecLimits,
) -> (r: CodecResult<Snapshot>)
    ensures
        match crate::wire::spec_decode_packet(bytes@, *wire_limits) {
            Err(e) => r == Err::<Snapshot, CodecError>(CodecError::Wire(e)),
            Ok((h, secs)) => match applied(schema.components@, baseline@, h, secs, *limits) {
                Ok(v) => r is Ok && r->Ok_0@ == v,
                Err(e) => r == Err::<Snapshot, CodecError>(e),
            },
        },
{
    let packet = match decode_packet(bytes, wire_limits) {
        Ok(p) => p,
        Err(e) => {
            return Err(CodecError::Wire(e));
        },
    };
    apply_delta_snapshot_from_packet(schema, baseline, &packet, limits)
}

/// A decoded delta reports its packet header's tick, and the baseline tick
/// the header names as the one the delta applies to.
pub proof fn lemma_delta_decoded_ticks(
    comps: Seq<ComponentDef>,
    h: PacketHeader,
    secs: Seq<(SectionTag, Seq<u8>)>,
    limits: CodecLimits,
)
    ensures
        delta_decoded(comps, h, secs, limits) matches Ok((t, bt, _, _, _)) ==> t@ == h.tick && bt@ == h.baseline_tick,
{
    lemma_tick_of(h.tick);
    lemma_tick_of(h.baseline_tick);
}

} // verus!
