//! Snapshot values and the component-level pieces shared by full and delta
//! encoding: component masks, lookups and field lists.
use super::error::{CodecError, CodecResult, LimitKind, MaskKind, MaskReason};
use super::limits::CodecLimits;
use super::model::{
    dec_field, enc_field, lift, r_bit, rcap, read_field_value, room, w_bit, write_field_value,
    FieldValue,
};
use super::types::{EntityId, SnapshotTick};
use crate::bitstream::bits::bits_of;
use crate::bitstream::{BitReader, BitWriter};
use crate::schema::{ComponentDef, ComponentId, FieldDef};
use vstd::prelude::*;

verus! {

/// A component's values, in schema field order.
#[derive(Debug, PartialEq, Eq)]
pub struct ComponentSnapshot {
    pub id: ComponentId,
    pub fields: Vec<FieldValue>,
}

/// An entity and the components it has.
#[derive(Debug, PartialEq, Eq)]
pub struct EntitySnapshot {
    pub id: EntityId,
    pub components: Vec<ComponentSnapshot>,
}

/// The state of a world at one tick: entities sorted by id.
#[derive(Debug, PartialEq, Eq)]
pub struct Snapshot {
    pub tick: SnapshotTick,
    pub entities: Vec<EntitySnapshot>,
}

/// A component as its id and field values.
pub type ComponentV = (ComponentId, Seq<FieldValue>);

/// An entity as its id and components.
pub type EntityV = (EntityId, Seq<ComponentV>);

impl View for ComponentSnapshot {
    type V = ComponentV;

    open spec fn view(&self) -> ComponentV {
        (self.id, self.fields@)
    }
}

/// The components of an entity as values.
pub open spec fn components_view(cs: Seq<ComponentSnapshot>) -> Seq<ComponentV> {
    cs.map_values(|c: ComponentSnapshot| c@)
}

impl View for EntitySnapshot {
    type V = EntityV;

    open spec fn view(&self) -> EntityV {
        (self.id, components_view(self.components@))
    }
}

/// Entities as values.
pub open spec fn entities_view(es: Seq<EntitySnapshot>) -> Seq<EntityV> {
    es.map_values(|e: EntitySnapshot| e@)
}

impl View for Snapshot {
    type V = (SnapshotTick, Seq<EntityV>);

    open spec fn view(&self) -> (SnapshotTick, Seq<EntityV>) {
        (self.tick, entities_view(self.entities@))
    }
}

impl Clone for ComponentSnapshot {
    fn clone(&self) -> (r: Self)
        ensures
            r@ == self@,
    {
        let fields = self.fields.clone();
        proof {
            assert(fields@ =~= self.fields@);
        }
        ComponentSnapshot { id: self.id, fields }
    }
}

impl Clone for EntitySnapshot {
    fn clone(&self) -> (r: Self)
        ensures
            r@ == self@,
    {
        let mut components: Vec<ComponentSnapshot> = Vec::new();
        let n = self.components.len();
        let mut i: usize = 0;
        while i < n
            invariant
                n == self.components@.len(),
                i <= n,
                components_view(components@) =~= components_view(self.components@).take(i as int),
            decreases n - i,
        {
            let c = self.components[i].clone();
            let ghost before = components@;
            components.push(c);
            proof {
                assert(components_view(components@) =~= components_view(before).push(c@));
                assert(components_view(self.components@).take(i + 1) =~= components_view(
                    self.components@,
                ).take(i as int).push(self.components@[i as int]@));
            }
            i = i + 1;
        }
        assert(components_view(self.components@).take(n as int) =~= components_view(
            self.components@,
        ));
        EntitySnapshot { id: self.id, components }
    }
}

impl Clone for Snapshot {
    fn clone(&self) -> (r: Self)
        ensures
            r@ == self@,
    {
        let entities = clone_entities(&self.entities);
        Snapshot { tick: self.tick, entities }
    }
}

/// Copies a list of entities.
pub fn clone_entities(es: &Vec<EntitySnapshot>) -> (r: Vec<EntitySnapshot>)
    ensures
        entities_view(r@) == entities_view(es@),
{
    let mut out: Vec<EntitySnapshot> = Vec::new();
    let n = es.len();
    let mut i: usize = 0;
    while i < n
        invariant
            n == es@.len(),
            i <= n,
            entities_view(out@) =~= entities_view(es@).take(i as int),
        decreases n - i,
    {
        let e = es[i].clone();
        let ghost before = out@;
        out.push(e);
        proof {
            assert(entities_view(out@) =~= entities_view(before).push(e@));
            assert(entities_view(es@).take(i + 1) =~= entities_view(es@).take(i as int).push(
                es@[i as int]@,
            ));
        }
        i = i + 1;
    }
    assert(entities_view(es@).take(n as int) =~= entities_view(es@));
    out
}

// ---------------------------------------------------------------------------
// Lookups.
/// Index of the first component with id `id`, searching from `i`.
pub open spec fn find_from(cs: Seq<ComponentV>, id: ComponentId, i: nat) -> Option<nat>
    decreases cs.len() - i,
{
    if i >= cs.len() {
        None
    } else if cs[i as int].0 == id {
        Some(i)
    } else {
        find_from(cs, id, i + 1)
    }
}

/// Index of the first component with id `id`.
pub open spec fn find_comp(cs: Seq<ComponentV>, id: ComponentId) -> Option<nat> {
    find_from(cs, id, 0)
}

/// Finds the first component of an entity with the given id.
pub fn find_component(entity: &EntitySnapshot, id: ComponentId) -> (r: Option<usize>)
    ensures
        r matches Some(i) ==> find_comp(entity@.1, id) == Some(i as nat) && i < entity.components@.len(),
        r is None ==> find_comp(entity@.1, id) is None,
{
    let n = entity.components.len();
    let mut i: usize = 0;
    while i < n
        invariant
            n == entity.components@.len(),
            n == entity@.1.len(),
            i <= n,
            find_comp(entity@.1, id) == find_from(entity@.1, id, i as nat),
        decreases n - i,
    {
        if entity.components[i].id == id {
            return Some(i);
        }
        i = i + 1;
    }
    None
}

/// Whether a schema has a component with id `id`.
pub open spec fn schema_has(comps: Seq<ComponentDef>, id: ComponentId) -> bool {
    exists|k: int| 0 <= k < comps.len() && #[trigger] comps[k].id == id
}

/// The first component of an entity that the schema does not know, from `i`.
pub open spec fn unknown_from(comps: Seq<ComponentDef>, cs: Seq<ComponentV>, i: nat) -> Option<
    CodecError,
>
    decreases cs.len() - i,
{
    if i >= cs.len() {
        None
    } else if !schema_has(comps, cs[i as int].0) {
        Some(
            CodecError::InvalidMask {
                kind: MaskKind::ComponentMask,
                reason: MaskReason::UnknownComponent { component: cs[i as int].0 },
            },
        )
    } else {
        unknown_from(comps, cs, i + 1)
    }
}

fn schema_contains(comps: &Vec<ComponentDef>, id: ComponentId) -> (r: bool)
    ensures
        r == schema_has(comps@, id),
{
    let n = comps.len();
    let mut k: usize = 0;
    while k < n
        invariant
            n == comps@.len(),
            k <= n,
            forall|m: int| 0 <= m < k ==> comps@[m].id != id,
        decreases n - k,
    {
        if comps[k].id == id {
            assert(comps@[k as int].id == id);
            return true;
        }
        k = k + 1;
    }
    false
}

/// Rejects components that the schema does not define.
pub fn ensure_known_components(comps: &Vec<ComponentDef>, entity: &EntitySnapshot) -> (r: CodecResult<
    (),
>)
    ensures
        match unknown_from(comps@, entity@.1, 0) {
            Some(e) => r == Err::<(), CodecError>(e),
            None => r is Ok,
        },
{
    let n = entity.components.len();
    let mut i: usize = 0;
    while i < n
        invariant
            n == entity.components@.len(),
            n == entity@.1.len(),
            i <= n,
            unknown_from(comps@, entity@.1, 0) == unknown_from(comps@, entity@.1, i as nat),
        decreases n - i,
    {
        let id = entity.components[i].id;
        if !schema_contains(comps, id) {
            return Err(
                CodecError::InvalidMask {
                    kind: MaskKind::ComponentMask,
                    reason: MaskReason::UnknownComponent { component: id },
                },
            );
        }
        i = i + 1;
    }
    Ok(())
}

// ---------------------------------------------------------------------------
// Component masks.
/// Writing the presence bit of every schema component from index `k` on.
pub open spec fn enc_mask(w: Seq<bool>, cap: nat, comps: Seq<ComponentDef>, cs: Seq<ComponentV>, k: nat) -> Result<
    Seq<bool>,
    CodecError,
>
    decreases comps.len() - k,
{
    if k >= comps.len() {
        Ok(w)
    } else {
        match lift(w_bit(w, cap, find_comp(cs, comps[k as int].id) is Some)) {
            Ok(w1) => enc_mask(w1, cap, comps, cs, k + 1),
            Err(e) => Err(e),
        }
    }
}

/// Writes one presence bit per schema component.
pub fn write_component_mask(comps: &Vec<ComponentDef>, entity: &EntitySnapshot, writer: &mut BitWriter) -> (r:
    CodecResult<()>)
    ensures
        final(writer).same_buffer(old(writer)),
        final(final(writer).target())@ == final(old(writer).target())@,
        match enc_mask(old(writer).written(), old(writer).capacity(), comps@, entity@.1, 0) {
            Ok(w) => r is Ok && final(writer).written() == w,
            Err(e) => r == Err::<(), CodecError>(e),
        },
{
    let n = comps.len();
    let mut k: usize = 0;
    while k < n
        invariant
            n == comps@.len(),
            k <= n,
            writer.same_buffer(old(writer)),
            final(writer.target())@ == final(old(writer).target())@,
            enc_mask(old(writer).written(), old(writer).capacity(), comps@, entity@.1, 0) == enc_mask(
                writer.written(),
                writer.capacity(),
                comps@,
                entity@.1,
                k as nat,
            ),
        decreases n - k,
    {
        let present = find_component(entity, comps[k].id).is_some();
        if let Err(e) = writer.write_bit(present) {
            return Err(CodecError::Bitstream(e));
        }
        k = k + 1;
    }
    Ok(())
}

/// Reading `n` mask bits at `p`.
pub open spec fn dec_mask(d: Seq<u8>, p: nat, n: nat, kind: MaskKind) -> Result<
    (Seq<bool>, nat),
    CodecError,
> {
    if rcap(d) - p < n {
        Err(
            CodecError::InvalidMask {
                kind,
                reason: MaskReason::NotEnoughBits { expected: n as usize, available: (rcap(d) - p) as usize },
            },
        )
    } else {
        Ok((bits_of(d).subrange(p as int, (p + n) as int), p + n))
    }
}

/// Reads a mask of `expected_bits` bits.
pub fn read_mask(reader: &mut BitReader, expected_bits: usize, kind: MaskKind) -> (r: CodecResult<
    Vec<bool>,
>)
    ensures
        final(reader).data() == old(reader).data(),
        match dec_mask(old(reader).data(), old(reader).pos(), expected_bits as nat, kind) {
            Ok((m, p)) => r is Ok && r->Ok_0@ == m && final(reader).pos() == p,
            Err(e) => r == Err::<Vec<bool>, CodecError>(e),
        },
{
    let available = reader.bits_remaining();
    if available < expected_bits {
        return Err(
            CodecError::InvalidMask {
                kind,
                reason: MaskReason::NotEnoughBits { expected: expected_bits, available },
            },
        );
    }
    let ghost start = reader.pos();
    let ghost bits = reader.bits();
    let mut mask: Vec<bool> = Vec::new();
    let mut k: usize = 0;
    while k < expected_bits
        invariant
            k <= expected_bits,
            reader.data() == old(reader).data(),
            bits == reader.bits(),
            reader.pos() == start + k,
            start + expected_bits <= reader.cap() <= bits.len(),
            mask@ == bits.subrange(start as int, start + k),
        decreases expected_bits - k,
    {
        let b = match reader.read_bit() {
            Ok(b) => b,
            Err(e) => {
                return Err(CodecError::Bitstream(e));
            },
        };
        mask.push(b);
        proof {
            assert(mask@ =~= bits.subrange(start as int, start + k + 1));
        }
        k = k + 1;
    }
    Ok(mask)
}

// ---------------------------------------------------------------------------
// Field lists.
/// Writing the values `vs[k..]` with the fields `fs[k..]`.
pub open spec fn enc_values(
    w: Seq<bool>,
    cap: nat,
    cid: ComponentId,
    fs: Seq<FieldDef>,
    vs: Seq<FieldValue>,
    k: nat,
) -> Result<Seq<bool>, CodecError>
    decreases fs.len() - k,
{
    if k >= fs.len() {
        Ok(w)
    } else {
        match enc_field(w, cap, cid, fs[k as int], vs[k as int]) {
            Ok(w1) => enc_values(w1, cap, cid, fs, vs, k + 1),
            Err(e) => Err(e),
        }
    }
}

/// Writing `n - k` one bits.
pub open spec fn enc_ones(w: Seq<bool>, cap: nat, n: nat, k: nat) -> Result<Seq<bool>, CodecError>
    decreases n - k,
{
    if k >= n {
        Ok(w)
    } else {
        match lift(w_bit(w, cap, true)) {
            Ok(w1) => enc_ones(w1, cap, n, k + 1),
            Err(e) => Err(e),
        }
    }
}

/// Writes one bits, `n` of them.
pub fn write_ones(n: usize, writer: &mut BitWriter) -> (r: CodecResult<()>)
    ensures
        final(writer).same_buffer(old(writer)),
        final(final(writer).target())@ == final(old(writer).target())@,
        match enc_ones(old(writer).written(), old(writer).capacity(), n as nat, 0) {
            Ok(w) => r is Ok && final(writer).written() == w,
            Err(e) => r == Err::<(), CodecError>(e),
        },
{
    let mut k: usize = 0;
    while k < n
        invariant
            k <= n,
            writer.same_buffer(old(writer)),
            final(writer.target())@ == final(old(writer).target())@,
            enc_ones(old(writer).written(), old(writer).capacity(), n as nat, 0) == enc_ones(
                writer.written(),
                writer.capacity(),
                n as nat,
                k as nat,
            ),
        decreases n - k,
    {
        if let Err(e) = writer.write_bit(true) {
            return Err(CodecError::Bitstream(e));
        }
        k = k + 1;
    }
    Ok(())
}

/// Writes the values of a component, field by field.
pub fn write_values(
    cid: ComponentId,
    fields: &Vec<FieldDef>,
    values: &Vec<FieldValue>,
    writer: &mut BitWriter,
) -> (r: CodecResult<()>)
    requires
        fields@.len() == values@.len(),
    ensures
        final(writer).same_buffer(old(writer)),
        final(final(writer).target())@ == final(old(writer).target())@,
        match enc_values(old(writer).written(), old(writer).capacity(), cid, fields@, values@, 0) {
            Ok(w) => r is Ok && final(writer).written() == w,
            Err(e) => r == Err::<(), CodecError>(e),
        },
{
    let n = fields.len();
    let mut k: usize = 0;
    while k < n
        invariant
            n == fields@.len(),
            n == values@.len(),
            k <= n,
            writer.same_buffer(old(writer)),
            final(writer.target())@ == final(old(writer).target())@,
            enc_values(old(writer).written(), old(writer).capacity(), cid, fields@, values@, 0)
                == enc_values(writer.written(), writer.capacity(), cid, fields@, values@, k as nat),
        decreases n - k,
    {
        write_field_value(cid, fields[k], values[k], writer)?;
        k = k + 1;
    }
    Ok(())
}

/// Reading the values of the fields `fs[k..]`, each after checking that its
/// mask bit is set.
pub open spec fn dec_values(
    d: Seq<u8>,
    p: nat,
    cid: ComponentId,
    fs: Seq<FieldDef>,
    mask: Seq<bool>,
    k: nat,
) -> Result<(Seq<FieldValue>, nat), CodecError>
    decreases fs.len() - k,
{
    if k >= fs.len() {
        Ok((Seq::empty(), p))
    } else if !mask[k as int] {
        Err(
            CodecError::InvalidMask {
                kind: MaskKind::FieldMask { component: cid },
                reason: MaskReason::MissingField { field: fs[k as int].id },
            },
        )
    } else {
        match dec_field(d, p, cid, fs[k as int]) {
            Err(e) => Err(e),
            Ok((v, p1)) => match dec_values(d, p1, cid, fs, mask, k + 1) {
                Err(e) => Err(e),
                Ok((rest, p2)) => Ok((seq![v] + rest, p2)),
            },
        }
    }
}

/// Decoding a component that carries every field: the field count limit,
/// a full field mask, then each value.
pub open spec fn dec_full_component(d: Seq<u8>, p: nat, c: ComponentDef, limits: CodecLimits) -> Result<
    (Seq<FieldValue>, nat),
    CodecError,
> {
    if c.fields@.len() > limits.max_fields_per_component {
        Err(
            CodecError::LimitsExceeded {
                kind: LimitKind::FieldsPerComponent,
                limit: limits.max_fields_per_component,
                actual: c.fields@.len() as usize,
            },
        )
    } else {
        match dec_mask(d, p, c.fields@.len(), MaskKind::FieldMask { component: c.id }) {
            Err(e) => Err(e),
            Ok((mask, p1)) => dec_values(d, p1, c.id, c.fields@, mask, 0),
        }
    }
}

/// Decodes the values of a component sent with a full field mask.
pub fn decode_full_component(component: &ComponentDef, reader: &mut BitReader, limits: &CodecLimits) -> (r:
    CodecResult<Vec<FieldValue>>)
    ensures
        final(reader).data() == old(reader).data(),
        match dec_full_component(old(reader).data(), old(reader).pos(), *component, *limits) {
            Ok((vs, p)) => r is Ok && r->Ok_0@ == vs && final(reader).pos() == p,
            Err(e) => r == Err::<Vec<FieldValue>, CodecError>(e),
        },
{
    let n = component.fields.len();
    if n > limits.max_fields_per_component {
        return Err(
            CodecError::LimitsExceeded {
                kind: LimitKind::FieldsPerComponent,
                limit: limits.max_fields_per_component,
                actual: n,
            },
        );
    }
    let mask = read_mask(reader, n, MaskKind::FieldMask { component: component.id })?;
    let ghost p1 = reader.pos();
    let mut values: Vec<FieldValue> = Vec::new();
    let mut k: usize = 0;
    while k < n
        invariant
            n == component.fields@.len(),
            n == mask@.len(),
            k <= n,
            reader.data() == old(reader).data(),
            dec_full_component(old(reader).data(), old(reader).pos(), *component, *limits)
                == dec_values(old(reader).data(), p1, component.id, component.fields@, mask@, 0),
            dec_values(reader.data(), p1, component.id, component.fields@, mask@, 0) == match dec_values(
                reader.data(),
                reader.pos(),
                component.id,
                component.fields@,
                mask@,
                k as nat,
            ) {
                Err(e) => Err(e),
                Ok((rest, p2)) => Ok((values@ + rest, p2)),
            },
        decreases n - k,
    {
        if !mask[k] {
            return Err(
                CodecError::InvalidMask {
                    kind: MaskKind::FieldMask { component: component.id },
                    reason: MaskReason::MissingField { field: component.fields[k].id },
                },
            );
        }
        let ghost before = values@;
        let v = read_field_value(component.id, component.fields[k], reader)?;
        values.push(v);
        proof {
            let nxt = dec_values(
                reader.data(),
                reader.pos(),
                component.id,
                component.fields@,
                mask@,
                (k + 1) as nat,
            );
            if let Ok((rest, p2)) = nxt {
                assert(before + (seq![v] + rest) =~= values@ + rest);
            }
        }
        k = k + 1;
    }
    assert(values@ + Seq::<FieldValue>::empty() =~= values@);
    Ok(values)
}

} // verus!
