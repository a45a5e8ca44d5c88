//! The demo schema and entity state of the reference simulation: one
//! component with position, velocity, yaw and three flags.
use crate::codec::{
    entities_view, ComponentSnapshot, EntityId, EntitySnapshot, EntityV, FieldValue, Snapshot,
    SnapshotTick,
};
use crate::schema::{
    component_id_of, components_error, field_error, field_id_of, field_repeats, fields_error,
    schema_valid, ChangePolicy, ComponentDef, ComponentId, FieldCodec, FieldDef, FieldId, FixedPoint,
    Schema,
};
use vstd::prelude::*;

verus! {

broadcast use crate::schema::lemma_component_id_of, crate::schema::lemma_field_id_of;

/// Quantization scale of positions.
pub const POS_SCALE: u32 = 100;

/// Smallest quantized position.
pub const POS_MIN: i64 = -100_000;

/// Largest quantized position.
pub const POS_MAX: i64 = 100_000;

/// Quantization scale of velocities.
pub const VEL_SCALE: u32 = 100;

/// Smallest quantized velocity.
pub const VEL_MIN: i64 = -10_000;

/// Largest quantized velocity.
pub const VEL_MAX: i64 = 10_000;

/// Identifier of the demo component.
pub const COMPONENT_ID: u16 = 1;

/// The state of one demo entity, quantized.
#[derive(Debug, Clone)]
pub struct DemoEntityState {
    pub id: EntityId,
    pub pos_q: [i64; 3],
    pub vel_q: [i64; 3],
    pub yaw: u16,
    pub flags: [bool; 3],
}

/// The field values of a demo entity, in schema order.
pub open spec fn demo_fields(s: DemoEntityState) -> Seq<FieldValue> {
    seq![
        FieldValue::FixedPoint(s.pos_q[0]),
        FieldValue::FixedPoint(s.pos_q[1]),
        FieldValue::FixedPoint(s.pos_q[2]),
        FieldValue::FixedPoint(s.vel_q[0]),
        FieldValue::FixedPoint(s.vel_q[1]),
        FieldValue::FixedPoint(s.vel_q[2]),
        FieldValue::UInt(s.yaw as u64),
        FieldValue::Bool(s.flags[0]),
        FieldValue::Bool(s.flags[1]),
        FieldValue::Bool(s.flags[2]),
    ]
}

/// A demo entity as a snapshot entity.
pub open spec fn demo_entity(s: DemoEntityState) -> EntityV {
    (s.id, seq![(component_id_of(COMPONENT_ID), demo_fields(s))])
}

impl DemoEntityState {
    /// The entity as a snapshot entity with its single component.
    pub fn to_snapshot(&self) -> (r: EntitySnapshot)
        ensures
            r@ == demo_entity(*self),
    {
        let fields = vec![
            FieldValue::FixedPoint(self.pos_q[0]),
            FieldValue::FixedPoint(self.pos_q[1]),
            FieldValue::FixedPoint(self.pos_q[2]),
            FieldValue::FixedPoint(self.vel_q[0]),
            FieldValue::FixedPoint(self.vel_q[1]),
            FieldValue::FixedPoint(self.vel_q[2]),
            FieldValue::UInt(self.yaw as u64),
            FieldValue::Bool(self.flags[0]),
            FieldValue::Bool(self.flags[1]),
            FieldValue::Bool(self.flags[2]),
        ];
        let components = vec![ComponentSnapshot { id: component_id(), fields }];
        let r = EntitySnapshot { id: self.id, components };
        assert(r@.1 =~= seq![(component_id_of(COMPONENT_ID), demo_fields(*self))]);
        r
    }
}

// ---------------------------------------------------------------------------
// Ordering entities by id.
/// Where an entity with id `id` goes among the first `n` entities: after
/// the last one whose id is at most `id`.
pub open spec fn insert_point(s: Seq<EntityV>, id: u32, n: nat) -> nat
    decreases n,
{
    if n == 0 {
        0
    } else if s[n - 1].0@ <= id {
        n
    } else {
        insert_point(s, id, (n - 1) as nat)
    }
}

/// Inserting an entity into a list sorted by id, after the entities with
/// the same id.
pub open spec fn insert_by_id(s: Seq<EntityV>, e: EntityV) -> Seq<EntityV> {
    s.insert(insert_point(s, e.0@, s.len()) as int, e)
}

/// Sorting entities by id, keeping the order of equal ids (insertion sort).
pub open spec fn sort_by_id(s: Seq<EntityV>) -> Seq<EntityV>
    decreases s.len(),
{
    if s.len() == 0 {
        s
    } else {
        insert_by_id(sort_by_id(s.drop_last()), s.last())
    }
}

/// Ids never decrease along the list.
pub open spec fn ids_nondecreasing(s: Seq<EntityV>) -> bool {
    forall|i: int, j: int| 0 <= i < j < s.len() ==> s[i].0@ <= s[j].0@
}

proof fn lemma_insert_point(s: Seq<EntityV>, id: u32, n: nat)
    requires
        n <= s.len(),
        ids_nondecreasing(s),
    ensures
        insert_point(s, id, n) <= n,
        forall|i: int| 0 <= i < insert_point(s, id, n) ==> s[i].0@ <= id,
        forall|i: int| insert_point(s, id, n) <= i < n ==> s[i].0@ > id,
    decreases n,
{
    if n > 0 {
        lemma_insert_point(s, id, (n - 1) as nat);
        if s[n - 1].0@ <= id {
            assert forall|i: int| 0 <= i < n implies s[i].0@ <= id by {
                if i < n - 1 {
                    assert(s[i].0@ <= s[n - 1].0@);
                }
            }
        }
    }
}

/// Sorting yields ids in non-decreasing order, with the same length.
pub proof fn lemma_sort_by_id(s: Seq<EntityV>)
    ensures
        ids_nondecreasing(sort_by_id(s)),
        sort_by_id(s).len() == s.len(),
    decreases s.len(),
{
    if s.len() > 0 {
        let t = sort_by_id(s.drop_last());
        lemma_sort_by_id(s.drop_last());
        let e = s.last();
        let p = insert_point(t, e.0@, t.len());
        lemma_insert_point(t, e.0@, t.len());
        let u = t.insert(p as int, e);
        assert forall|i: int, j: int| 0 <= i < j < u.len() implies u[i].0@ <= u[j].0@ by {
            if j < p {
                assert(u[i] == t[i] && u[j] == t[j]);
            } else if j == p {
                assert(u[i] == t[i]);
            } else if i < p {
                assert(u[i] == t[i] && u[j] == t[j - 1]);
            } else if i == p {
                assert(u[j] == t[j - 1]);
            } else {
                assert(u[i] == t[i - 1] && u[j] == t[j - 1]);
            }
        }
    }
}

/// The demo entities as a snapshot at `tick`, sorted by id.
pub fn build_snapshot(tick: SnapshotTick, states: &[DemoEntityState]) -> (r: Snapshot)
    ensures
        r.tick == tick,
        entities_view(r.entities@) == sort_by_id(states@.map_values(|s: DemoEntityState| demo_entity(s))),
{
    let ghost src = states@.map_values(|s: DemoEntityState| demo_entity(s));
    let mut entities: Vec<EntitySnapshot> = Vec::new();
    let n = states.len();
    let mut k: usize = 0;
    while k < n
        invariant
            n == states@.len(),
            src == states@.map_values(|s: DemoEntityState| demo_entity(s)),
            k <= n,
            entities_view(entities@) == sort_by_id(src.take(k as int)),
        decreases n - k,
    {
        let e = states[k].to_snapshot();
        let id = e.id.raw();
        let ghost sorted = entities_view(entities@);
        proof {
            lemma_sort_by_id(src.take(k as int));
        }
        let mut pos: usize = entities.len();
        while pos > 0 && entities[pos - 1].id.raw() > id
            invariant
                pos <= entities@.len(),
                sorted == entities_view(entities@),
                e@.0@ == id,
                insert_point(sorted, id, sorted.len()) == insert_point(sorted, id, pos as nat),
            decreases pos,
        {
            assert(sorted[pos - 1] == entities@[pos - 1]@);
            pos = pos - 1;
        }
        proof {
            if pos > 0 {
                assert(sorted[pos - 1] == entities@[pos - 1]@);
            }
        }
        let ghost before = entities@;
        entities.insert(pos, e);
        proof {
            assert(src.take(k + 1).drop_last() =~= src.take(k as int));
            assert(src.take(k + 1).last() == e@);
            assert(entities_view(entities@) =~= entities_view(before).insert(pos as int, e@));
        }
        k = k + 1;
    }
    assert(src.take(n as int) =~= src);
    Snapshot { tick, entities }
}

// ---------------------------------------------------------------------------
// The demo schema.
/// The fields of the demo component.
pub open spec fn demo_field_defs() -> Seq<FieldDef> {
    let pos = FieldCodec::FixedPoint(FixedPoint { min_q: POS_MIN, max_q: POS_MAX, scale: POS_SCALE });
    let vel = FieldCodec::FixedPoint(FixedPoint { min_q: VEL_MIN, max_q: VEL_MAX, scale: VEL_SCALE });
    seq![
        FieldDef { id: field_id_of(1), codec: pos, change: ChangePolicy::Always },
        FieldDef { id: field_id_of(2), codec: pos, change: ChangePolicy::Always },
        FieldDef { id: field_id_of(3), codec: pos, change: ChangePolicy::Always },
        FieldDef { id: field_id_of(4), codec: vel, change: ChangePolicy::Always },
        FieldDef { id: field_id_of(5), codec: vel, change: ChangePolicy::Always },
        FieldDef { id: field_id_of(6), codec: vel, change: ChangePolicy::Always },
        FieldDef { id: field_id_of(7), codec: FieldCodec::UInt { bits: 12 }, change: ChangePolicy::Always },
        FieldDef { id: field_id_of(8), codec: FieldCodec::Bool, change: ChangePolicy::Always },
        FieldDef { id: field_id_of(9), codec: FieldCodec::Bool, change: ChangePolicy::Always },
        FieldDef { id: field_id_of(10), codec: FieldCodec::Bool, change: ChangePolicy::Threshold { threshold_q: 1 } },
    ]
}

proof fn lemma_demo_fields_valid(fs: Seq<FieldDef>, j: nat)
    requires
        fs == demo_field_defs(),
        j <= fs.len(),
    ensures
        fields_error(component_id_of(COMPONENT_ID), fs, j) is None,
    decreases fs.len() - j,
{
    if j < fs.len() {
        assert forall|i: int| 0 <= i < fs.len() implies #[trigger] fs[i].id@ == i + 1 by {}
        assert(!field_repeats(fs, j as int)) by {
            assert forall|k: int| 0 <= k < j implies #[trigger] fs[k].id != fs[j as int].id by {
                assert(fs[k].id@ == k + 1);
                assert(fs[j as int].id@ == j + 1);
            }
        }
        assert(field_error(fs[j as int]) is None);
        lemma_demo_fields_valid(fs, j + 1);
    }
}

fn component_id() -> (r: ComponentId)
    ensures
        r == component_id_of(COMPONENT_ID),
{
    ComponentId::new(COMPONENT_ID).unwrap()
}

fn field_id(value: u16) -> (r: FieldId)
    requires
        value != 0,
    ensures
        r == field_id_of(value),
{
    FieldId::new(value).unwrap()
}

/// The demo schema: one component with the demo fields.
pub fn demo_schema() -> (r: Schema)
    ensures
        r.components@.len() == 1,
        r.components@[0].id == component_id_of(COMPONENT_ID),
        r.components@[0].fields@ == demo_field_defs(),
        schema_valid(r.components@),
{
    let pos = FieldCodec::fixed_point(POS_MIN, POS_MAX, POS_SCALE);
    let vel = FieldCodec::fixed_point(VEL_MIN, VEL_MAX, VEL_SCALE);
    let component = ComponentDef::new(component_id())
        .field(FieldDef::new(field_id(1), pos))
        .field(FieldDef::new(field_id(2), pos))
        .field(FieldDef::new(field_id(3), pos))
        .field(FieldDef::new(field_id(4), vel))
        .field(FieldDef::new(field_id(5), vel))
        .field(FieldDef::new(field_id(6), vel))
        .field(FieldDef::new(field_id(7), FieldCodec::uint(12)))
        .field(FieldDef::new(field_id(8), FieldCodec::bool()))
        .field(FieldDef::new(field_id(9), FieldCodec::bool()))
        .field(FieldDef::new(field_id(10), FieldCodec::bool()).change(ChangePolicy::Threshold { threshold_q: 1 }));
    assert(component.fields@ =~= demo_field_defs());
    let components = vec![component];
    proof {
        lemma_demo_fields_valid(demo_field_defs(), 0);
        assert(!crate::schema::component_repeats(components@, 0));
        reveal_with_fuel(components_error, 2);
    }
    Schema { components }
}

} // verus!
