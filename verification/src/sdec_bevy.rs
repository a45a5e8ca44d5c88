//! Plain data shared with the ECS integration: extracted change sets,
//! replicated field declarations, encode metrics, and the map between ECS
//! entities and replicated ids.
use crate::codec::{DeltaUpdateEntity, EntityId, EntitySnapshot};
use std::collections::HashMap;
use crate::schema::{ChangePolicy, FieldCodec};
use std::time::Duration;
use vstd::prelude::*;

verus! {

broadcast use vstd::std_specs::hash::group_hash_axioms;

/// Changes extracted from a world for one tick.
#[derive(Debug, Default)]
pub struct BevyChangeSet {
    pub creates: Vec<EntitySnapshot>,
    pub destroys: Vec<EntityId>,
    pub updates: Vec<DeltaUpdateEntity>,
}

/// A replicated field as a component declares it.
#[derive(Debug, Clone, Copy)]
pub struct ReplicatedField {
    pub id: u16,
    pub codec: FieldCodec,
    pub change: Option<ChangePolicy>,
}

/// What one encode produced and how long it took.
#[derive(Debug, Default, Clone, Copy)]
pub struct EncodeMetrics {
    pub bytes: usize,
    pub encode_time: Duration,
}

/// Receives encode metrics.
pub trait MetricsSink {
    /// Records the metrics of one encode.
    fn record_encode(&mut self, metrics: EncodeMetrics);
}

/// The id allocated after `n`: one more, held at the largest id.
pub open spec fn next_after(n: u32) -> u32 {
    if n == u32::MAX {
        n
    } else {
        (n + 1) as u32
    }
}

/// Two-way map between ECS entities, by their 64-bit form, and the ids
/// replicated for them. Fresh ids count up from one.
#[derive(Debug)]
pub struct EntityMap {
    next_id: u32,
    to_id: HashMap<u64, EntityId>,
    to_entity: HashMap<u32, u64>,
}

impl EntityMap {
    /// The last id allocated or registered (zero at first).
    pub closed spec fn next(&self) -> u32 {
        self.next_id
    }

    /// The id of each mapped entity.
    pub closed spec fn ids(&self) -> Map<u64, EntityId> {
        self.to_id@
    }

    /// The entity of each mapped id.
    pub closed spec fn entities(&self) -> Map<u32, u64> {
        self.to_entity@
    }

    /// An empty map.
    pub fn new() -> (r: Self)
        ensures
            r.next() == 0,
            r.ids() == Map::<u64, EntityId>::empty(),
            r.entities() == Map::<u32, u64>::empty(),
    {
        EntityMap { next_id: 0, to_id: HashMap::new(), to_entity: HashMap::new() }
    }

    /// The id of `entity`, allocating the next one when it has none.
    pub fn entity_id(&mut self, entity: u64) -> (r: EntityId)
        ensures
            old(self).ids().contains_key(entity) ==> {
                &&& r == old(self).ids()[entity]
                &&& final(self).next() == old(self).next()
                &&& final(self).ids() == old(self).ids()
                &&& final(self).entities() == old(self).entities()
            },
            !old(self).ids().contains_key(entity) ==> {
                let n = next_after(old(self).next());
                &&& r@ == n
                &&& final(self).next() == n
                &&& final(self).ids() == old(self).ids().insert(entity, r)
                &&& final(self).entities() == old(self).entities().insert(n, entity)
            },
    {
        match self.to_id.get(&entity) {
            Some(id) => {
                return *id;
            },
            None => {},
        }
        let next = if self.next_id == u32::MAX {
            u32::MAX
        } else {
            self.next_id + 1
        };
        self.next_id = next;
        let id = EntityId::new(next);
        self.to_id.insert(entity, id);
        self.to_entity.insert(next, entity);
        id
    }

    /// The id of `entity`, if it has one.
    pub fn entity_id_known(&self, entity: u64) -> (r: Option<EntityId>)
        ensures
            r == (if self.ids().contains_key(entity) {
                Some(self.ids()[entity])
            } else {
                None
            }),
    {
        match self.to_id.get(&entity) {
            Some(id) => Some(*id),
            None => None,
        }
    }

    /// The entity of `id`, if it has one.
    pub fn entity(&self, id: EntityId) -> (r: Option<u64>)
        ensures
            r == (if self.entities().contains_key(id@) {
                Some(self.entities()[id@])
            } else {
                None
            }),
    {
        match self.to_entity.get(&id.raw()) {
            Some(e) => Some(*e),
            None => None,
        }
    }

    /// Maps `id` and `entity` to each other; later allocations start after
    /// `id`.
    pub fn register(&mut self, id: EntityId, entity: u64)
        ensures
            final(self).ids() == old(self).ids().insert(entity, id),
            final(self).entities() == old(self).entities().insert(id@, entity),
            final(self).next() == (if old(self).next() >= id@ {
                old(self).next()
            } else {
                id@
            }),
    {
        self.to_id.insert(entity, id);
        self.to_entity.insert(id.raw(), entity);
        if id.raw() > self.next_id {
            self.next_id = id.raw();
        }
    }

    /// Forgets `id` and the entity mapped to it.
    pub fn unregister(&mut self, id: EntityId)
        ensures
            final(self).next() == old(self).next(),
            old(self).entities().contains_key(id@) ==> {
                &&& final(self).entities() == old(self).entities().remove(id@)
                &&& final(self).ids() == old(self).ids().remove(old(self).entities()[id@])
            },
            !old(self).entities().contains_key(id@) ==> final(self).entities() == old(self).entities()
                && final(self).ids() == old(self).ids(),
    {
        match self.to_entity.remove(&id.raw()) {
            Some(entity) => {
                let _ = self.to_id.remove(&entity);
            },
            None => {},
        }
    }
}

} // verus!
