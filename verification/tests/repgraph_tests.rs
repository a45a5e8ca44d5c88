use sdec::codec::{DeltaUpdateEntity, EntityId, EntitySnapshot};
use sdec::repgraph::{ClientBudget, ClientId, ReplicationConfig, ReplicationGraph, WorldView};
use sdec::schema::ComponentId;

struct TestWorld {
    skip_updates: bool,
}

impl WorldView for TestWorld {
    fn snapshot(&self, entity: EntityId) -> EntitySnapshot {
        EntitySnapshot { id: entity, components: Vec::new() }
    }

    fn update(&self, entity: EntityId, _dirty_components: &[ComponentId]) -> Option<DeltaUpdateEntity> {
        if self.skip_updates {
            None
        } else {
            Some(DeltaUpdateEntity { id: entity, components: Vec::new() })
        }
    }
}

fn ids(v: &[EntityId]) -> Vec<u32> {
    v.iter().map(|e| e.raw()).collect()
}

fn comp(id: u16) -> ComponentId {
    ComponentId::new(id).unwrap()
}

#[test]
fn graph_creates_then_destroys_when_irrelevant() {
    let world = TestWorld { skip_updates: false };
    let mut graph = ReplicationGraph::new(ReplicationConfig::default_limits());
    graph.update_entity(EntityId::new(2), &[]);
    graph.update_entity(EntityId::new(1), &[]);
    graph.upsert_client(ClientId(7), ClientBudget::unlimited());

    let relevant = [EntityId::new(1), EntityId::new(2)];
    let delta = graph.build_client_delta(ClientId(7), &relevant, &world);
    let created: Vec<u32> = delta.creates.iter().map(|c| c.id.raw()).collect();
    assert_eq!(created, vec![1, 2]);
    assert!(delta.destroys.is_empty());
    assert!(delta.updates.is_empty());

    let again = graph.build_client_delta(ClientId(7), &relevant, &world);
    assert!(again.is_empty());

    let only_two = [EntityId::new(2)];
    let delta = graph.build_client_delta(ClientId(7), &only_two, &world);
    assert!(delta.creates.is_empty());
    assert_eq!(ids(&delta.destroys), vec![1]);
}

#[test]
fn graph_unknown_client_gets_empty_delta() {
    let world = TestWorld { skip_updates: false };
    let mut graph = ReplicationGraph::new(ReplicationConfig::default_limits());
    graph.update_entity(EntityId::new(1), &[comp(1)]);
    let delta = graph.build_client_delta(ClientId(3), &[EntityId::new(1)], &world);
    assert!(delta.is_empty());
}

#[test]
fn graph_removed_entity_is_destroyed_for_clients_that_know_it() {
    let world = TestWorld { skip_updates: false };
    let mut graph = ReplicationGraph::new(ReplicationConfig::default_limits());
    graph.update_entity(EntityId::new(5), &[]);
    graph.upsert_client(ClientId(1), ClientBudget::unlimited());
    let delta = graph.build_client_delta(ClientId(1), &[EntityId::new(5)], &world);
    assert_eq!(delta.creates.len(), 1);

    graph.remove_entity(EntityId::new(5));
    // Still listed as relevant by the caller, but removed: destroyed.
    let delta = graph.build_client_delta(ClientId(1), &[EntityId::new(5)], &world);
    assert_eq!(ids(&delta.destroys), vec![5]);
    assert!(delta.creates.is_empty());

    graph.clear_removed();
    let delta = graph.build_client_delta(ClientId(1), &[], &world);
    assert!(delta.is_empty());
}

#[test]
fn graph_dirty_components_give_updates_until_cleared() {
    let world = TestWorld { skip_updates: false };
    let mut graph = ReplicationGraph::new(ReplicationConfig::default_limits());
    graph.update_entity(EntityId::new(1), &[]);
    graph.upsert_client(ClientId(1), ClientBudget::unlimited());
    let relevant = [EntityId::new(1)];
    graph.build_client_delta(ClientId(1), &relevant, &world);

    graph.update_entity(EntityId::new(1), &[comp(2), comp(2), comp(3)]);
    let delta = graph.build_client_delta(ClientId(1), &relevant, &world);
    assert_eq!(delta.updates.len(), 1);
    assert_eq!(delta.updates[0].id.raw(), 1);

    graph.clear_dirty();
    let delta = graph.build_client_delta(ClientId(1), &relevant, &world);
    assert!(delta.updates.is_empty());
}

#[test]
fn graph_world_may_skip_updates() {
    let world = TestWorld { skip_updates: true };
    let mut graph = ReplicationGraph::new(ReplicationConfig::default_limits());
    graph.update_entity(EntityId::new(1), &[]);
    graph.upsert_client(ClientId(1), ClientBudget::unlimited());
    let relevant = [EntityId::new(1)];
    graph.build_client_delta(ClientId(1), &relevant, &world);
    graph.update_entity(EntityId::new(1), &[comp(1)]);
    let delta = graph.build_client_delta(ClientId(1), &relevant, &world);
    assert!(delta.is_empty());
}

#[test]
fn graph_budget_caps_creates_and_the_rest_come_later() {
    let world = TestWorld { skip_updates: false };
    let mut graph = ReplicationGraph::new(ReplicationConfig::default_limits());
    for i in 1..=5u32 {
        graph.update_entity(EntityId::new(i), &[]);
    }
    let budget = ClientBudget { max_creates: 2, max_updates: usize::MAX, max_destroys: usize::MAX };
    graph.upsert_client(ClientId(9), budget);
    let relevant: Vec<EntityId> = (1..=5u32).map(EntityId::new).collect();
    let first = graph.build_client_delta(ClientId(9), &relevant, &world);
    let created: Vec<u32> = first.creates.iter().map(|c| c.id.raw()).collect();
    assert_eq!(created, vec![1, 2]);
    let second = graph.build_client_delta(ClientId(9), &relevant, &world);
    let created: Vec<u32> = second.creates.iter().map(|c| c.id.raw()).collect();
    assert_eq!(created, vec![3, 4]);
}

#[test]
fn graph_respects_entity_cap() {
    let world = TestWorld { skip_updates: false };
    let mut graph = ReplicationGraph::new(ReplicationConfig { max_entities: 1 });
    graph.update_entity(EntityId::new(1), &[comp(1)]);
    graph.update_entity(EntityId::new(2), &[comp(1)]);
    graph.upsert_client(ClientId(1), ClientBudget::unlimited());
    let relevant = [EntityId::new(1), EntityId::new(2)];
    graph.build_client_delta(ClientId(1), &relevant, &world);
    // Entity 2 was never tracked, so it has no dirty state to update from.
    let delta = graph.build_client_delta(ClientId(1), &relevant, &world);
    let updated: Vec<u32> = delta.updates.iter().map(|u| u.id.raw()).collect();
    assert_eq!(updated, vec![1]);
}

#[test]
fn graph_removed_client_starts_over() {
    let world = TestWorld { skip_updates: false };
    let mut graph = ReplicationGraph::new(ReplicationConfig::default_limits());
    graph.update_entity(EntityId::new(1), &[]);
    graph.upsert_client(ClientId(1), ClientBudget::unlimited());
    let relevant = [EntityId::new(1)];
    assert_eq!(graph.build_client_delta(ClientId(1), &relevant, &world).creates.len(), 1);
    graph.remove_client(ClientId(1));
    assert!(graph.build_client_delta(ClientId(1), &relevant, &world).is_empty());
    graph.upsert_client(ClientId(1), ClientBudget::unlimited());
    assert_eq!(graph.build_client_delta(ClientId(1), &relevant, &world).creates.len(), 1);
}

#[test]
fn graph_upsert_keeps_known_entities() {
    let world = TestWorld { skip_updates: false };
    let mut graph = ReplicationGraph::new(ReplicationConfig::default_limits());
    graph.update_entity(EntityId::new(1), &[]);
    graph.upsert_client(ClientId(1), ClientBudget::unlimited());
    let relevant = [EntityId::new(1)];
    graph.build_client_delta(ClientId(1), &relevant, &world);
    graph.upsert_client(ClientId(1), ClientBudget { max_creates: 0, max_updates: 0, max_destroys: 0 });
    graph.set_entity_priority(EntityId::new(1), 3);
    graph.set_entity_priority(EntityId::new(99), 3);
    assert!(graph.build_client_delta(ClientId(1), &relevant, &world).is_empty());
}
