//! Codec-level limits for bounded encoding and decoding.
use vstd::prelude::*;

verus! {

/// Limits enforced while encoding and decoding snapshots.
#[derive(Debug, Clone, PartialEq, Eq)]
pub struct CodecLimits {
    pub max_entities_create: usize,
    pub max_entities_update: usize,
    pub max_entities_destroy: usize,
    pub max_components_per_entity: usize,
    pub max_fields_per_component: usize,
    pub max_section_bytes: usize,
    pub max_total_entities_after_apply: usize,
}

impl Default for CodecLimits {
    fn default() -> (l: Self)
        ensures
            l == (CodecLimits {
                max_entities_create: 1024,
                max_entities_update: 2048,
                max_entities_destroy: 1024,
                max_components_per_entity: 64,
                max_fields_per_component: 64,
                max_section_bytes: 65536,
                max_total_entities_after_apply: 4096,
            }),
    {
        CodecLimits {
            max_entities_create: 1024,
            max_entities_update: 2048,
            max_entities_destroy: 1024,
            max_components_per_entity: 64,
            max_fields_per_component: 64,
            max_section_bytes: 64 * 1024,
            max_total_entities_after_apply: 4096,
        }
    }
}

impl CodecLimits {
    /// Small limits for tests.
    pub fn for_testing() -> (l: Self)
        ensures
            l == (CodecLimits {
                max_entities_create: 32,
                max_entities_update: 64,
                max_entities_destroy: 32,
                max_components_per_entity: 16,
                max_fields_per_component: 16,
                max_section_bytes: 4096,
                max_total_entities_after_apply: 128,
            }),
    {
        CodecLimits {
            max_entities_create: 32,
            max_entities_update: 64,
            max_entities_destroy: 32,
            max_components_per_entity: 16,
            max_fields_per_component: 16,
            max_section_bytes: 4096,
            max_total_entities_after_apply: 128,
        }
    }

    /// No limits at all.
    pub fn unlimited() -> (l: Self)
        ensures
            l == (CodecLimits {
                max_entities_create: usize::MAX,
                max_entities_update: usize::MAX,
                max_entities_destroy: usize::MAX,
                max_components_per_entity: usize::MAX,
                max_fields_per_component: usize::MAX,
                max_section_bytes: usize::MAX,
                max_total_entities_after_apply: usize::MAX,
            }),
    {
        CodecLimits {
            max_entities_create: usize::MAX,
            max_entities_update: usize::MAX,
            max_entities_destroy: usize::MAX,
            max_components_per_entity: usize::MAX,
            max_fields_per_component: usize::MAX,
            max_section_bytes: usize::MAX,
            max_total_entities_after_apply: usize::MAX,
        }
    }
}

} // verus!
