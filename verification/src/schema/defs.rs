//! Component definitions, schemas and their validation.
use super::error::{SchemaError, SchemaResult};
use super::field::{ChangePolicy, FieldCodec, FieldDef};
use super::ids::ComponentId;
use vstd::prelude::*;

verus! {

/// A component type: its identifier and its fields, in wire order.
#[derive(Debug, Clone, PartialEq, Eq)]
pub struct ComponentDef {
    pub id: ComponentId,
    pub fields: Vec<FieldDef>,
}

impl ComponentDef {
    /// A component without fields.
    pub fn new(id: ComponentId) -> (r: Self)
        ensures
            r.id == id,
            r.fields@ == Seq::<FieldDef>::empty(),
    {
        ComponentDef { id, fields: Vec::new() }
    }

    /// A component with the given fields.
    pub fn with_fields(id: ComponentId, fields: Vec<FieldDef>) -> (r: Self)
        ensures
            r.id == id,
            r.fields@ == fields@,
    {
        ComponentDef { id, fields }
    }

    /// The same component with one more field at the end.
    pub fn field(self, field: FieldDef) -> (r: Self)
        ensures
            r.id == self.id,
            r.fields@ == self.fields@.push(field),
    {
        let mut c = self;
        c.fields.push(field);
        c
    }
}

/// A replication schema: the component types, in wire order.
#[derive(Debug, Clone, PartialEq, Eq)]
pub struct Schema {
    pub components: Vec<ComponentDef>,
}

/// Builds a schema one component at a time.
#[derive(Debug)]
pub struct SchemaBuilder {
    components: Vec<ComponentDef>,
}

impl Default for SchemaBuilder {
    fn default() -> (r: Self)
        ensures
            r.pending() == Seq::<ComponentDef>::empty(),
    {
        SchemaBuilder { components: Vec::new() }
    }
}

/// The error of a single field's codec, if any.
pub open spec fn field_error(f: FieldDef) -> Option<SchemaError> {
    match f.codec {
        FieldCodec::UInt { bits } => if bits == 0 || bits > 64 {
            Some(SchemaError::InvalidBitWidth { bits })
        } else {
            None
        },
        FieldCodec::SInt { bits } => if bits == 0 || bits > 64 {
            Some(SchemaError::InvalidBitWidth { bits })
        } else {
            None
        },
        FieldCodec::FixedPoint(fp) => if fp.scale == 0 {
            Some(SchemaError::InvalidFixedPointScale { scale: fp.scale })
        } else if fp.min_q > fp.max_q {
            Some(SchemaError::InvalidFixedPointRange { min_q: fp.min_q, max_q: fp.max_q })
        } else {
            None
        },
        _ => None,
    }
}

/// Field `j` repeats the identifier of an earlier field.
pub open spec fn field_repeats(fields: Seq<FieldDef>, j: int) -> bool {
    exists|k: int| 0 <= k < j && #[trigger] fields[k].id == fields[j].id
}

/// The first error among the fields from index `j` on.
pub open spec fn fields_error(component: ComponentId, fields: Seq<FieldDef>, j: nat) -> Option<
    SchemaError,
>
    decreases fields.len() - j,
{
    if j >= fields.len() {
        None
    } else if field_repeats(fields, j as int) {
        Some(SchemaError::DuplicateFieldId { component, field: fields[j as int].id })
    } else if field_error(fields[j as int]) is Some {
        field_error(fields[j as int])
    } else {
        fields_error(component, fields, j + 1)
    }
}

/// Component `i` repeats the identifier of an earlier component.
pub open spec fn component_repeats(comps: Seq<ComponentDef>, i: int) -> bool {
    exists|k: int| 0 <= k < i && #[trigger] comps[k].id == comps[i].id
}

/// The first error among the components from index `i` on, in the order
/// validation meets them.
pub open spec fn components_error(comps: Seq<ComponentDef>, i: nat) -> Option<SchemaError>
    decreases comps.len() - i,
{
    if i >= comps.len() {
        None
    } else if component_repeats(comps, i as int) {
        Some(SchemaError::DuplicateComponentId { id: comps[i as int].id })
    } else if fields_error(comps[i as int].id, comps[i as int].fields@, 0) is Some {
        fields_error(comps[i as int].id, comps[i as int].fields@, 0)
    } else {
        components_error(comps, i + 1)
    }
}

/// A schema that passes validation.
pub open spec fn schema_valid(comps: Seq<ComponentDef>) -> bool {
    components_error(comps, 0) is None
}

fn validate_fixed_point(min_q: i64, max_q: i64, scale: u32) -> (r: SchemaResult<()>)
    ensures
        scale == 0 ==> r == Err::<(), SchemaError>(SchemaError::InvalidFixedPointScale { scale }),
        scale != 0 && min_q > max_q ==> r == Err::<(), SchemaError>(
            SchemaError::InvalidFixedPointRange { min_q, max_q },
        ),
        scale != 0 && min_q <= max_q ==> r is Ok,
{
    if scale == 0 {
        return Err(SchemaError::InvalidFixedPointScale { scale });
    }
    if min_q > max_q {
        return Err(SchemaError::InvalidFixedPointRange { min_q, max_q });
    }
    Ok(())
}

fn validate_field(field: &FieldDef) -> (r: SchemaResult<()>)
    ensures
        match field_error(*field) {
            Some(e) => r == Err::<(), SchemaError>(e),
            None => r is Ok,
        },
{
    match field.codec {
        FieldCodec::UInt { bits } => {
            if bits == 0 || bits > 64 {
                return Err(SchemaError::InvalidBitWidth { bits });
            }
        },
        FieldCodec::SInt { bits } => {
            if bits == 0 || bits > 64 {
                return Err(SchemaError::InvalidBitWidth { bits });
            }
        },
        FieldCodec::FixedPoint(fp) => {
            validate_fixed_point(fp.min_q, fp.max_q, fp.scale)?;
        },
        FieldCodec::Bool | FieldCodec::VarUInt | FieldCodec::VarSInt => {},
    }
    // A zero change threshold is allowed: every difference then counts.
    Ok(())
}

fn validate_fields(component: &ComponentDef) -> (r: SchemaResult<()>)
    ensures
        match fields_error(component.id, component.fields@, 0) {
            Some(e) => r == Err::<(), SchemaError>(e),
            None => r is Ok,
        },
{
    let fields = &component.fields;
    let n = fields.len();
    let mut j: usize = 0;
    while j < n
        invariant
            n == fields@.len(),
            fields@ == component.fields@,
            j <= n,
            fields_error(component.id, fields@, 0) == fields_error(component.id, fields@, j as nat),
        decreases n - j,
    {
        let mut k: usize = 0;
        while k < j
            invariant
                j < n,
                n == fields@.len(),
                fields@ == component.fields@,
                k <= j,
                fields_error(component.id, fields@, 0) == fields_error(component.id, fields@, j as nat),
                forall|m: int| 0 <= m < k ==> fields@[m].id != fields@[j as int].id,
            decreases j - k,
        {
            if fields[k].id == fields[j].id {
                assert(field_repeats(fields@, j as int)) by {
                    assert(fields@[k as int].id == fields@[j as int].id);
                }
                return Err(SchemaError::DuplicateFieldId { component: component.id, field: fields[j].id });
            }
            k = k + 1;
        }
        validate_field(&fields[j])?;
        j = j + 1;
    }
    Ok(())
}

impl Schema {
    /// Creates a schema after validating it.
    pub fn new(components: Vec<ComponentDef>) -> (r: SchemaResult<Self>)
        ensures
            match components_error(components@, 0) {
                Some(e) => r == Err::<Schema, SchemaError>(e),
                None => (r matches Ok(s) && s.components@ == components@),
            },
    {
        let schema = Schema { components };
        schema.validate()?;
        Ok(schema)
    }

    /// An empty builder.
    pub fn builder() -> (b: SchemaBuilder)
        ensures
            b.pending() == Seq::<ComponentDef>::empty(),
    {
        SchemaBuilder { components: Vec::new() }
    }

    /// Checks identifiers for duplicates and field codecs for sane parameters.
    pub fn validate(&self) -> (r: SchemaResult<()>)
        ensures
            match components_error(self.components@, 0) {
                Some(e) => r == Err::<(), SchemaError>(e),
                None => r is Ok,
            },
    {
        let comps = &self.components;
        let n = comps.len();
        let mut i: usize = 0;
        while i < n
            invariant
                n == comps@.len(),
                comps@ == self.components@,
                i <= n,
                components_error(comps@, 0) == components_error(comps@, i as nat),
            decreases n - i,
        {
            let mut k: usize = 0;
            while k < i
                invariant
                    i < n,
                    n == comps@.len(),
                    comps@ == self.components@,
                    k <= i,
                    components_error(comps@, 0) == components_error(comps@, i as nat),
                    forall|m: int| 0 <= m < k ==> comps@[m].id != comps@[i as int].id,
                decreases i - k,
            {
                if comps[k].id == comps[i].id {
                    assert(component_repeats(comps@, i as int)) by {
                        assert(comps@[k as int].id == comps@[i as int].id);
                    }
                    return Err(SchemaError::DuplicateComponentId { id: comps[i].id });
                }
                k = k + 1;
            }
            validate_fields(&comps[i])?;
            i = i + 1;
        }
        Ok(())
    }
}

impl SchemaBuilder {
    /// The components added so far.
    pub closed spec fn pending(&self) -> Seq<ComponentDef> {
        self.components@
    }

    /// Adds a component at the end.
    pub fn component(self, component: ComponentDef) -> (r: Self)
        ensures
            r.pending() == self.pending().push(component),
    {
        let mut b = self;
        b.components.push(component);
        b
    }

    /// Validates the components and builds the schema.
    pub fn build(self) -> (r: SchemaResult<Schema>)
        ensures
            match components_error(self.pending(), 0) {
                Some(e) => r == Err::<Schema, SchemaError>(e),
                None => (r matches Ok(s) && s.components@ == self.pending()),
            },
    {
        Schema::new(self.components)
    }
}

} // verus!
