//! Identifiers of components and fields (never zero).
use vstd::prelude::*;

verus! {

/// Identifier of a component type in a schema (non-zero).
#[derive(Debug, Clone, Copy, PartialEq, Eq, Hash, Structural)]
pub struct ComponentId(u16);

/// Identifier of a field within a component (non-zero).
#[derive(Debug, Clone, Copy, PartialEq, Eq, Hash, Structural)]
pub struct FieldId(u16);

impl View for ComponentId {
    type V = u16;

    closed spec fn view(&self) -> u16 {
        self.0
    }
}

impl View for FieldId {
    type V = u16;

    closed spec fn view(&self) -> u16 {
        self.0
    }
}

/// The component identifier with raw value `v`.
pub closed spec fn component_id_of(v: u16) -> ComponentId {
    ComponentId(v)
}

/// A component identifier is its raw value.
pub broadcast proof fn lemma_component_id_of(v: u16)
    ensures
        #[trigger] component_id_of(v)@ == v,
{
}

/// The field identifier with raw value `v`.
pub closed spec fn field_id_of(v: u16) -> FieldId {
    FieldId(v)
}

/// A field identifier is its raw value.
pub broadcast proof fn lemma_field_id_of(v: u16)
    ensures
        #[trigger] field_id_of(v)@ == v,
{
}

impl ComponentId {
    /// Creates an identifier; `None` for zero.
    pub fn new(value: u16) -> (r: Option<Self>)
        ensures
            value == 0 ==> r is None,
            value != 0 ==> (r matches Some(id) && id@ == value),
            value != 0 ==> r == Some(component_id_of(value)),
    {
        if value == 0 {
            None
        } else {
            Some(ComponentId(value))
        }
    }

    /// The raw identifier.
    pub fn get(self) -> (r: u16)
        ensures
            r == self@,
    {
        self.0
    }
}

impl FieldId {
    /// Creates an identifier; `None` for zero.
    pub fn new(value: u16) -> (r: Option<Self>)
        ensures
            value == 0 ==> r is None,
            value != 0 ==> (r matches Some(id) && id@ == value),
            value != 0 ==> r == Some(field_id_of(value)),
    {
        if value == 0 {
            None
        } else {
            Some(FieldId(value))
        }
    }

    /// The raw identifier.
    pub fn get(self) -> (r: u16)
        ensures
            r == self@,
    {
        self.0
    }
}

/// Two component identifiers are equal exactly when their raw values are.
pub proof fn lemma_component_id_view(a: ComponentId, b: ComponentId)
    ensures
        a == b <==> a@ == b@,
{
}

/// Two field identifiers are equal exactly when their raw values are.
pub proof fn lemma_field_id_view(a: FieldId, b: FieldId)
    ensures
        a == b <==> a@ == b@,
{
}

} // verus!
