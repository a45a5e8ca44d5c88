//! Schema validation errors.
use super::ids::{ComponentId, FieldId};
use vstd::prelude::*;

verus! {

/// Errors found while validating a schema.
#[derive(Debug, Clone, Copy, PartialEq, Eq, Structural)]
pub enum SchemaError {
    /// Two components share an identifier.
    DuplicateComponentId { id: ComponentId },
    /// Two fields of one component share an identifier.
    DuplicateFieldId { component: ComponentId, field: FieldId },
    /// An integer codec with a bit width outside `1..=64`.
    InvalidBitWidth { bits: u8 },
    /// A fixed-point codec with a zero scale.
    InvalidFixedPointScale { scale: u32 },
    /// A fixed-point codec whose minimum exceeds its maximum.
    InvalidFixedPointRange { min_q: i64, max_q: i64 },
}

/// Result type for schema operations.
pub type SchemaResult<T> = Result<T, SchemaError>;

} // verus!
