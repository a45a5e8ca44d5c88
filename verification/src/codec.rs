//! Snapshot and delta encoding over the wire format.
mod apply;
mod baseline;
mod delta_body;
mod delta_current;
mod delta_dec;
mod delta_enc;
mod delta_law;
mod delta_roundtrip;
mod delta_sparse;
mod delta_wire;
mod diff;
mod error;
mod full;
mod limits;
pub mod model;
mod scratch;
mod session;
mod roundtrip;
mod section;
mod sparse_wire;
mod snapshot;
mod types;

pub use error::{CodecError, CodecResult, LimitKind, MaskKind, MaskReason, ValueReason};
pub use diff::{dist, field_change, lemma_change_policy, value_differs, value_exceeds};
pub use limits::CodecLimits;
pub use model::FieldValue;
pub use types::{
    entity_id_of, lemma_entity_id_of, lemma_entity_id_of_view, lemma_entity_id_view, lemma_tick_of,
    lemma_tick_of_view, lemma_tick_view, tick_of,
    EntityId, SnapshotTick,
};
pub use snapshot::{
    clone_entities, components_view, dec_full_component, dec_mask, dec_values, decode_full_component,
    enc_mask, enc_ones, enc_values, ensure_known_components, entities_view, find_comp, find_component,
    find_from, read_mask, schema_has, unknown_from, write_component_mask, write_ones, write_values,
    ComponentSnapshot, ComponentV, EntitySnapshot, EntityV, Snapshot,
};
pub use section::{frame_section, framed, section_at, section_total, SECTION_PREFIX};
pub use full::{
    dec_comps, dec_create_section, dec_entities, dec_entity_comps, decode_full_snapshot,
    decode_full_snapshot_from_packet, enc_create_body, enc_entities, enc_entity, enc_full_fields,
    enc_present, enc_tail, encode_full_snapshot, full_from_packet, full_header, full_plan,
    full_sections, hash_of, write_header,
};
pub use scratch::CodecScratch;
pub use baseline::{
    inserted, latest_before, lemma_get_after_insert, lemma_insert_bounded, lemma_insert_keeps_order,
    lemma_latest_is_greatest, lemma_latest_is_newest, select_baseline_tick, tick_from, ticks_increasing, BaselineError,
    BaselineStore,
};
pub use session::{
    dec_init_body, decode_session_init_packet, decode_session_packet, enc_init_body,
    encode_session_init_packet, expanded_header, lemma_session_packet_ticks, init_from_packet, init_header, init_plan,
    init_scan, mode_raw, session_packet, CompactHeaderMode, SessionState,
};
pub use delta_dec::{
    upd_comps_view, upd_entities_view, DeltaDecoded, DeltaUpdateComponent, DeltaUpdateEntity,
    UpdCompV, UpdEntV,
};
pub use delta_enc::{
    delta_header, delta_payload, delta_plan, delta_sections, encode_delta_snapshot,
    encode_delta_snapshot_for_client, encode_delta_snapshot_for_client_session,
    encode_delta_snapshot_for_client_session_with_scratch,
    encode_delta_snapshot_for_client_with_scratch, encode_delta_snapshot_with_scratch,
    lemma_session_delta_header_ticks, sections_at, session_delta_header, session_delta_plan, DeltaBody, EncodeUpdateMode,
};
pub use apply::{
    applied, apply_delta_snapshot, apply_delta_snapshot_from_packet, apply_merged, changes_result,
    create_walk, decode_delta_packet, delta_decoded, lemma_delta_decoded_ticks, delta_header_error, delta_secs, destroy_walk,
    entity_from, ids_sorted, lemma_order_sorted, set_fields, update_comps, update_entities,
};
pub use delta_current::{
    always_changes, distinct_ids, entities_in_schema_order, has_comp, in_schema_order, lemma_target_current, rank,
};
pub use delta_roundtrip::{
    body_decodes, delta_uses_sparse, is_sparse, lemma_delta_apply_is_current, lemma_delta_roundtrip, sec_of, section_items, sparse_readable,
    sparse_update, upd_state,
};
pub use delta_law::{
    changed, comp_mask, comp_updates, comps_ok, created_from, destroyed_from, entity_updates, kept_from,
    lemma_apply_delta_changes, lemma_walk_facts, matched_result, merge_from, merged_comps, merged_from, pairs_ok,
    same_ids, target_from,
};
pub use roundtrip::{
    canon_comps, canon_entities, full_packet_len, lemma_full_snapshot_roundtrip, presence, written_in,
};
pub use sparse_wire::{ids_ascending, last_changed, lemma_sparse_body_rt, entry_total, with_entity, entity_prev, enc_entry, enc_index, sat};
pub use delta_wire::{created_at, ids_at, lemma_create_body_rt, lemma_destroy_body_rt, lemma_masked_body_rt, upd_flags};
pub use crate::wire::Limits as WireLimits;
