# sdec

A snapshot and delta codec for game-state replication, written in Verus.
Every executable function in `src/` carries a contract that Verus proves.

## Layout

- `src/bitstream/`: bounded and growable bit writers, the bit reader, and
  varints.
- `src/wire/`: packet header, flags, limits, section framing and compact
  session headers.
- `src/schema/`: component and field definitions, validation, and the schema
  hash.
- `src/codec/`: full snapshots, delta encoding (masked and sparse updates),
  decoding and applying deltas, the baseline store, and sessions. It also
  holds the round-trip laws: `lemma_full_snapshot_roundtrip`,
  `lemma_delta_roundtrip` and `lemma_delta_apply_is_current`.
- `src/repgraph.rs` and `src/repgraph/`: the replication graph. It tracks
  entities, dirty components, removals and per-client known entities, and
  builds client deltas within budgets. The caller works out which entities
  are relevant to each client and passes their ids in.
- `src/demo_schema.rs` and `src/demo_sim.rs`: the demo schema and a
  deterministic simulation.
- `src/sdec_bevy.rs`: plain data for the ECS integration, and the map between
  ECS entities and replicated ids.
- `tests/`: tests of the library.
- `app/`: the demo capture program (file I/O and command line), and the
  floating-point spatial relevance used by the replication graph.
