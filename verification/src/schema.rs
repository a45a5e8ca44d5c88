//! Replication schemas: component and field definitions, validation and a
//! deterministic schema hash.
mod defs;
mod error;
mod field;
mod hash;
mod ids;

pub use defs::{
    component_repeats, components_error, field_error, field_repeats, fields_error, schema_valid,
    ComponentDef, Schema, SchemaBuilder,
};
pub use error::{SchemaError, SchemaResult};
pub use field::{ChangePolicy, FieldCodec, FieldDef, FixedPoint};
pub use hash::{
    change_bytes, codec_bytes, component_bytes, components_bytes, field_bytes, fields_bytes,
    fnv_from, fnv_step, lemma_fnv_append, schema_bytes, schema_hash, FNV_OFFSET, FNV_PRIME,
};
pub use ids::{
    component_id_of, field_id_of, lemma_component_id_of, lemma_component_id_view, lemma_field_id_of,
    lemma_field_id_view, ComponentId,
    FieldId,
};
