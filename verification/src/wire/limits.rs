//! Configurable limits for bounded decoding.
use vstd::prelude::*;

verus! {

/// Limits for packet decoding.
///
/// These limits are enforced during decoding to prevent resource exhaustion
/// and ensure bounded memory usage.
#[derive(Debug, Clone, PartialEq, Eq)]
pub struct Limits {
    /// Maximum packet size in bytes.
    pub max_packet_bytes: usize,
    /// Maximum number of sections in a packet.
    pub max_sections: usize,
    /// Maximum length of one section body in bytes.
    pub max_section_len: usize,
    /// Maximum number of entities in an `ENTITY_CREATE` section.
    pub max_entities_create: usize,
    /// Maximum number of entities in an `ENTITY_UPDATE` section.
    pub max_entities_update: usize,
    /// Maximum number of entities in an `ENTITY_DESTROY` section.
    pub max_entities_destroy: usize,
    /// Maximum number of components per entity.
    pub max_components_per_entity: usize,
    /// Maximum number of fields per component.
    pub max_fields_per_component: usize,
}

impl Default for Limits {
    fn default() -> (l: Self)
        ensures
            l.max_packet_bytes == 64 * 1024,
            l.max_sections == 16,
            l.max_section_len == 64 * 1024,
            l.max_entities_create == 256,
            l.max_entities_update == 1024,
            l.max_entities_destroy == 256,
            l.max_components_per_entity == 64,
            l.max_fields_per_component == 64,
    {
        Self {
            max_packet_bytes: 64 * 1024,
            max_sections: 16,
            max_section_len: 64 * 1024,
            max_entities_create: 256,
            max_entities_update: 1024,
            max_entities_destroy: 256,
            max_components_per_entity: 64,
            max_fields_per_component: 64,
        }
    }
}

impl Limits {
    /// Creates limits suitable for testing with smaller values.
    pub fn for_testing() -> (l: Self)
        ensures
            l.max_packet_bytes == 4096,
            l.max_sections == 8,
            l.max_section_len == 4096,
            l.max_entities_create == 32,
            l.max_entities_update == 64,
            l.max_entities_destroy == 32,
            l.max_components_per_entity == 16,
            l.max_fields_per_component == 16,
    {
        Self {
            max_packet_bytes: 4096,
            max_sections: 8,
            max_section_len: 4096,
            max_entities_create: 32,
            max_entities_update: 64,
            max_entities_destroy: 32,
            max_components_per_entity: 16,
            max_fields_per_component: 16,
        }
    }

    /// Creates limits with no restrictions (use with caution).
    pub fn unlimited() -> (l: Self)
        ensures
            l.max_packet_bytes == usize::MAX,
            l.max_sections == usize::MAX,
            l.max_section_len == usize::MAX,
            l.max_entities_create == usize::MAX,
            l.max_entities_update == usize::MAX,
            l.max_entities_destroy == usize::MAX,
            l.max_components_per_entity == usize::MAX,
            l.max_fields_per_component == usize::MAX,
    {
        Self {
            max_packet_bytes: usize::MAX,
            max_sections: usize::MAX,
            max_section_len: usize::MAX,
            max_entities_create: usize::MAX,
            max_entities_update: usize::MAX,
            max_entities_destroy: usize::MAX,
            max_components_per_entity: usize::MAX,
            max_fields_per_component: usize::MAX,
        }
    }
}

} // verus!
