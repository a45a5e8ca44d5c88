//! Snapshot ticks and entity identifiers.
use vstd::prelude::*;

verus! {

/// A simulation tick number.
#[derive(Debug, Clone, Copy, PartialEq, Eq, PartialOrd, Ord, Hash, Default, Structural)]
pub struct SnapshotTick(u32);

/// A stable entity identifier.
#[derive(Debug, Clone, Copy, PartialEq, Eq, PartialOrd, Ord, Hash, Default, Structural)]
pub struct EntityId(u32);

impl View for SnapshotTick {
    type V = u32;

    closed spec fn view(&self) -> u32 {
        self.0
    }
}

impl View for EntityId {
    type V = u32;

    closed spec fn view(&self) -> u32 {
        self.0
    }
}

impl SnapshotTick {
    /// Creates a tick.
    pub fn new(tick: u32) -> (r: Self)
        ensures
            r@ == tick,
            r == tick_of(tick),
    {
        SnapshotTick(tick)
    }

    /// The raw tick number.
    pub fn raw(self) -> (r: u32)
        ensures
            r == self@,
    {
        self.0
    }

    /// Returns `true` for tick zero.
    pub fn is_zero(self) -> (r: bool)
        ensures
            r == (self@ == 0),
    {
        self.0 == 0
    }
}

impl EntityId {
    /// Creates an entity identifier.
    pub fn new(id: u32) -> (r: Self)
        ensures
            r@ == id,
            r == entity_id_of(id),
    {
        EntityId(id)
    }

    /// The raw identifier.
    pub fn raw(self) -> (r: u32)
        ensures
            r == self@,
    {
        self.0
    }
}

/// The tick with number `v`.
pub closed spec fn tick_of(v: u32) -> SnapshotTick {
    SnapshotTick(v)
}

/// The entity identifier with number `v`.
pub closed spec fn entity_id_of(v: u32) -> EntityId {
    EntityId(v)
}

/// A tick is its number.
pub broadcast proof fn lemma_tick_of(v: u32)
    ensures
        #[trigger] tick_of(v)@ == v,
{
}

/// An entity identifier is its number.
pub broadcast proof fn lemma_entity_id_of(v: u32)
    ensures
        #[trigger] entity_id_of(v)@ == v,
{
}

/// A tick is rebuilt from its number.
pub broadcast proof fn lemma_tick_of_view(t: SnapshotTick)
    ensures
        #[trigger] tick_of(t@) == t,
{
}

/// An entity identifier is rebuilt from its number.
pub broadcast proof fn lemma_entity_id_of_view(e: EntityId)
    ensures
        #[trigger] entity_id_of(e@) == e,
{
}

/// Ticks are equal exactly when their numbers are.
pub proof fn lemma_tick_view(a: SnapshotTick, b: SnapshotTick)
    ensures
        a == b <==> a@ == b@,
{
}

/// Entity identifiers are equal exactly when their numbers are.
pub proof fn lemma_entity_id_view(a: EntityId, b: EntityId)
    ensures
        a == b <==> a@ == b@,
{
}

impl From<u32> for SnapshotTick {
    fn from(tick: u32) -> (r: Self) {
        SnapshotTick(tick)
    }
}

impl vstd::std_specs::convert::FromSpecImpl<u32> for SnapshotTick {
    open spec fn obeys_from_spec() -> bool {
        true
    }

    closed spec fn from_spec(v: u32) -> SnapshotTick {
        SnapshotTick(v)
    }
}

impl From<SnapshotTick> for u32 {
    fn from(tick: SnapshotTick) -> (r: u32) {
        tick.0
    }
}

impl vstd::std_specs::convert::FromSpecImpl<SnapshotTick> for u32 {
    open spec fn obeys_from_spec() -> bool {
        true
    }

    closed spec fn from_spec(v: SnapshotTick) -> u32 {
        v.0
    }
}

impl From<u32> for EntityId {
    fn from(id: u32) -> (r: Self) {
        EntityId(id)
    }
}

impl vstd::std_specs::convert::FromSpecImpl<u32> for EntityId {
    open spec fn obeys_from_spec() -> bool {
        true
    }

    closed spec fn from_spec(v: u32) -> EntityId {
        EntityId(v)
    }
}

impl From<EntityId> for u32 {
    fn from(id: EntityId) -> (r: u32) {
        id.0
    }
}

impl vstd::std_specs::convert::FromSpecImpl<EntityId> for u32 {
    open spec fn obeys_from_spec() -> bool {
        true
    }

    closed spec fn from_spec(v: EntityId) -> u32 {
        v.0
    }
}

} // verus!
