//! Reusable buffers for delta encoding.
use vstd::prelude::*;

verus! {

/// Scratch buffers reused across delta encodes (component and field masks).
#[derive(Debug)]
pub struct CodecScratch {
    pub(crate) component_changed: Vec<bool>,
    pub(crate) field_mask: Vec<bool>,
}

impl View for CodecScratch {
    type V = (Seq<bool>, Seq<bool>);

    /// The component mask and the field mask.
    closed spec fn view(&self) -> (Seq<bool>, Seq<bool>) {
        (self.component_changed@, self.field_mask@)
    }
}

impl Default for CodecScratch {
    fn default() -> (r: Self)
        ensures
            r@ == (Seq::<bool>::empty(), Seq::<bool>::empty()),
    {
        let r = CodecScratch { component_changed: Vec::new(), field_mask: Vec::new() };
        assert(r@ =~~= (Seq::<bool>::empty(), Seq::<bool>::empty()));
        r
    }
}

impl CodecScratch {
    /// Empty scratch buffers.
    pub fn new() -> (r: Self)
        ensures
            r@ == (Seq::<bool>::empty(), Seq::<bool>::empty()),
    {
        let r = CodecScratch { component_changed: Vec::new(), field_mask: Vec::new() };
        assert(r@ =~~= (Seq::<bool>::empty(), Seq::<bool>::empty()));
        r
    }

    /// Grows the component mask to at least `components` entries.
    pub(crate) fn ensure_component_capacity(&mut self, components: usize)
        ensures
            final(self).component_changed@.len() >= components,
            final(self).component_changed@.len() >= old(self).component_changed@.len(),
            final(self).field_mask == old(self).field_mask,
    {
        if self.component_changed.len() < components {
            self.component_changed.resize(components, false);
        }
    }

    /// Grows the field mask to at least `fields` entries.
    pub(crate) fn ensure_field_capacity(&mut self, fields: usize)
        ensures
            final(self).field_mask@.len() >= fields,
            final(self).field_mask@.len() >= old(self).field_mask@.len(),
            final(self).component_changed == old(self).component_changed,
    {
        if self.field_mask.len() < fields {
            self.field_mask.resize(fields, false);
        }
    }
}

} // verus!
