//! Per-client replication bookkeeping: budgets, client deltas and the
//! world adapter that builds their payloads.
use crate::codec::{DeltaUpdateEntity, EntityId, EntitySnapshot};
use crate::schema::ComponentId;
use vstd::prelude::*;

mod graph;

pub use graph::{
    client_at, client_removed, client_upserted, clients_ok, creates_of, delta_destroys, somes, lemma_destroys_increasing, lemma_known_after, destroys_of, insert_all, is_dirty, remove_all, snapshot_ids, updates_of, entities_cleaned, entity_prioritized, entity_removed, entity_updated, entry_keys, has_key, id_keys, increasing, key_insert, key_point, key_remove, ClientState, ClientV,
    EntityEntry, EntryV, ReplicationGraph,
};

verus! {

/// Client identifier.
#[derive(Debug, Clone, Copy, PartialEq, Eq, Hash, PartialOrd, Ord, Structural)]
pub struct ClientId(pub u32);

/// Caps on how many creates, updates and destroys one client delta carries.
#[derive(Debug, Clone, Copy, PartialEq, Eq, Structural)]
pub struct ClientBudget {
    pub max_creates: usize,
    pub max_updates: usize,
    pub max_destroys: usize,
}

impl ClientBudget {
    /// A budget without caps.
    pub fn unlimited() -> (r: Self)
        ensures
            r.max_creates == usize::MAX,
            r.max_updates == usize::MAX,
            r.max_destroys == usize::MAX,
    {
        ClientBudget { max_creates: usize::MAX, max_updates: usize::MAX, max_destroys: usize::MAX }
    }
}

/// Replication graph configuration.
#[derive(Debug, Clone, Copy, PartialEq, Eq, Structural)]
pub struct ReplicationConfig {
    /// Maximum entities tracked globally (hard safety cap).
    pub max_entities: usize,
}

impl ReplicationConfig {
    /// The default cap of one million tracked entities.
    pub fn default_limits() -> (r: Self)
        ensures
            r.max_entities == 1_000_000,
    {
        ReplicationConfig { max_entities: 1_000_000 }
    }
}

/// The changes one client receives: created entities, destroyed ids and
/// updates.
#[derive(Debug)]
pub struct ClientDelta {
    pub creates: Vec<EntitySnapshot>,
    pub destroys: Vec<EntityId>,
    pub updates: Vec<DeltaUpdateEntity>,
}

impl ClientDelta {
    /// Returns `true` when the delta carries nothing.
    pub fn is_empty(&self) -> (r: bool)
        ensures
            r == (self.creates@.len() == 0 && self.destroys@.len() == 0 && self.updates@.len() == 0),
    {
        self.creates.len() == 0 && self.destroys.len() == 0 && self.updates.len() == 0
    }
}

/// Builds the payloads of a client delta from the world's state.
pub trait WorldView {
    /// A full snapshot of an entity, for creates.
    fn snapshot(&self, entity: EntityId) -> EntitySnapshot;

    /// An update of the dirty components of an entity; `None` to skip it.
    fn update(&self, entity: EntityId, dirty_components: &[ComponentId]) -> Option<DeltaUpdateEntity>;
}

/// Appending `new[k..]` to `t`, skipping components already present.
pub open spec fn push_unique_from(t: Seq<ComponentId>, new: Seq<ComponentId>, k: nat) -> Seq<ComponentId>
    decreases new.len() - k,
{
    if k >= new.len() {
        t
    } else if t.contains(new[k as int]) {
        push_unique_from(t, new, k + 1)
    } else {
        push_unique_from(t.push(new[k as int]), new, k + 1)
    }
}

/// Appends the components of `new_components` that `target` lacks, in order.
pub fn push_unique_components(target: &mut Vec<ComponentId>, new_components: &[ComponentId])
    ensures
        final(target)@ == push_unique_from(old(target)@, new_components@, 0),
{
    let n = new_components.len();
    let mut k: usize = 0;
    while k < n
        invariant
            n == new_components@.len(),
            k <= n,
            push_unique_from(old(target)@, new_components@, 0) == push_unique_from(target@, new_components@, k as nat),
        decreases n - k,
    {
        let c = new_components[k];
        let mut found = false;
        let mut i: usize = 0;
        while i < target.len()
            invariant
                i <= target@.len(),
                found <==> exists|m: int| 0 <= m < i && target@[m] == c,
            decreases target@.len() - i,
        {
            if target[i] == c {
                found = true;
            }
            i = i + 1;
        }
        proof {
            if found {
                let m = choose|m: int| 0 <= m < i && target@[m] == c;
                assert(target@.contains(c)) by {
                    assert(target@[m] == c);
                }
            } else {
                assert(!target@.contains(c));
            }
        }
        if !found {
            target.push(c);
        }
        k = k + 1;
    }
}

/// Cuts each list of a client delta down to the budget.
pub fn apply_budget(
    creates: &mut Vec<EntitySnapshot>,
    updates: &mut Vec<DeltaUpdateEntity>,
    destroys: &mut Vec<EntityId>,
    budget: ClientBudget,
)
    ensures
        final(creates)@ == old(creates)@.take(vstd::math::min(old(creates)@.len() as int, budget.max_creates as int)),
        final(updates)@ == old(updates)@.take(vstd::math::min(old(updates)@.len() as int, budget.max_updates as int)),
        final(destroys)@ == old(destroys)@.take(vstd::math::min(old(destroys)@.len() as int, budget.max_destroys as int)),
{
    if creates.len() > budget.max_creates {
        creates.truncate(budget.max_creates);
    }
    if updates.len() > budget.max_updates {
        updates.truncate(budget.max_updates);
    }
    if destroys.len() > budget.max_destroys {
        destroys.truncate(budget.max_destroys);
    }
    proof {
        assert(old(creates)@.len() <= budget.max_creates ==> old(creates)@.take(old(creates)@.len() as int) =~= old(creates)@);
        assert(old(updates)@.len() <= budget.max_updates ==> old(updates)@.take(old(updates)@.len() as int) =~= old(updates)@);
        assert(old(destroys)@.len() <= budget.max_destroys ==> old(destroys)@.take(old(destroys)@.len() as int) =~= old(destroys)@);
    }
}

} // verus!
