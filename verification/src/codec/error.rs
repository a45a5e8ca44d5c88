//! Error types for codec operations.
use crate::bitstream::BitError;
use crate::schema::{ComponentId, FieldId};
use crate::wire::{DecodeError, SectionTag};
use crate::text::{decimal, hex_digits, push_decimal, push_hex, push_signed, signed_decimal};
use crate::wire::tag_raw;
use vstd::prelude::*;
use vstd::string::StringExecFns;

verus! {

/// Errors raised while encoding, decoding or applying snapshots.
#[derive(Debug, Clone, PartialEq, Eq)]
pub enum CodecError {
    /// Wire framing error.
    Wire(DecodeError),
    /// Bit-level read or write error.
    Bitstream(BitError),
    /// The requested baseline tick is not in the history.
    BaselineNotFound { requested_tick: u32 },
    /// An entity referenced by a delta does not exist.
    EntityNotFound { entity_id: u32 },
    /// A component referenced by a delta does not exist on the entity.
    ComponentNotFound { entity_id: u32, component_id: u16 },
    /// The same entity appears twice where it must be unique.
    DuplicateEntity { entity_id: u32 },
    /// A created entity already exists.
    EntityAlreadyExists { entity_id: u32 },
    /// The output buffer cannot hold the encoding.
    OutputTooSmall { needed: usize, available: usize },
    /// A codec limit was exceeded.
    LimitsExceeded { kind: LimitKind, limit: usize, actual: usize },
    /// A component or field mask is malformed.
    InvalidMask { kind: MaskKind, reason: MaskReason },
    /// A field value does not fit its codec.
    InvalidValue { component: ComponentId, field: FieldId, reason: ValueReason },
    /// Entity identifiers are not strictly increasing.
    InvalidEntityOrder { previous: u32, current: u32 },
    /// The packet was built for another schema.
    SchemaMismatch { expected: u64, found: u64 },
    /// A section occurs twice.
    DuplicateSection { section: SectionTag },
    /// A section is not allowed in this packet.
    UnexpectedSection { section: SectionTag },
    /// A section body has bits left after decoding.
    TrailingSectionData { section: SectionTag, remaining_bits: usize },
    /// The baseline tick does not match.
    BaselineTickMismatch { expected: u32, found: u32 },
    /// Both masked and sparse update sections are present.
    DuplicateUpdateEncoding,
    /// A compact packet arrived without a session.
    SessionMissing,
    /// A session init packet is malformed.
    SessionInitInvalid,
    /// The session asks for an unknown compact header mode.
    SessionUnsupportedMode { mode: u8 },
    /// A compact packet is not newer than the last one.
    SessionOutOfOrder { previous: u32, current: u32 },
}

/// Codec limits that can be exceeded.
#[derive(Debug, Clone, Copy, PartialEq, Eq)]
pub enum LimitKind {
    EntitiesCreate,
    EntitiesUpdate,
    EntitiesDestroy,
    ComponentsPerEntity,
    FieldsPerComponent,
    SectionBytes,
    TotalEntitiesAfterApply,
}

/// Which mask is malformed.
#[derive(Debug, Clone, Copy, PartialEq, Eq)]
pub enum MaskKind {
    ComponentMask,
    FieldMask { component: ComponentId },
}

/// How a mask is malformed.
#[derive(Debug, Clone, Copy, PartialEq, Eq)]
pub enum MaskReason {
    NotEnoughBits { expected: usize, available: usize },
    MissingField { field: FieldId },
    UnknownComponent { component: ComponentId },
    FieldCountMismatch { expected: usize, actual: usize },
    ComponentPresenceMismatch { component: ComponentId },
    InvalidComponentId { raw: u16 },
    EmptyFieldMask { component: ComponentId },
    InvalidFieldIndex { field_index: usize, max: usize },
}

/// Why a value does not fit its codec.
#[derive(Debug, Clone, Copy, PartialEq, Eq)]
pub enum ValueReason {
    UnsignedOutOfRange { bits: u8, value: u64 },
    SignedOutOfRange { bits: u8, value: i64 },
    VarUIntOutOfRange { value: u64 },
    VarSIntOutOfRange { value: i64 },
    FixedPointOutOfRange { min_q: i64, max_q: i64, value: i64 },
    TypeMismatch { expected: &'static str, found: &'static str },
}

impl LimitKind {
    /// The limit's name.
    pub open spec fn name(&self) -> Seq<char> {
        match *self {
            LimitKind::EntitiesCreate => "entities create"@,
            LimitKind::EntitiesUpdate => "entities update"@,
            LimitKind::EntitiesDestroy => "entities destroy"@,
            LimitKind::ComponentsPerEntity => "components per entity"@,
            LimitKind::FieldsPerComponent => "fields per component"@,
            LimitKind::SectionBytes => "section bytes"@,
            LimitKind::TotalEntitiesAfterApply => "total entities after apply"@,
        }
    }

    /// Appends the limit's name.
    pub fn push_name(&self, s: &mut String)
        ensures
            final(s)@ == old(s)@ + self.name(),
    {
        match self {
            LimitKind::EntitiesCreate => s.append("entities create"),
            LimitKind::EntitiesUpdate => s.append("entities update"),
            LimitKind::EntitiesDestroy => s.append("entities destroy"),
            LimitKind::ComponentsPerEntity => s.append("components per entity"),
            LimitKind::FieldsPerComponent => s.append("fields per component"),
            LimitKind::SectionBytes => s.append("section bytes"),
            LimitKind::TotalEntitiesAfterApply => s.append("total entities after apply"),
        }
    }
}

impl MaskKind {
    /// The mask's name.
    pub open spec fn name(&self) -> Seq<char> {
        match *self {
            MaskKind::ComponentMask => "component mask"@,
            MaskKind::FieldMask { component } => "field mask of component "@ + decimal(component@ as nat),
        }
    }

    /// Appends the mask's name.
    pub fn push_name(&self, s: &mut String)
        ensures
            final(s)@ == old(s)@ + self.name(),
    {
        let ghost s0 = s@;
        match self {
            MaskKind::ComponentMask => s.append("component mask"),
            MaskKind::FieldMask { component } => {
                s.append("field mask of component ");
                push_decimal(s, component.get() as u64);
            },
        }
        assert(s@ =~= s0 + self.name());
    }
}

impl MaskReason {
    /// What is wrong with the mask.
    pub open spec fn message(&self) -> Seq<char> {
        match *self {
            MaskReason::NotEnoughBits { expected, available } => "expected "@ + decimal(expected as nat) + " bits, "@
                + decimal(available as nat) + " available"@,
            MaskReason::MissingField { field } => "field "@ + decimal(field@ as nat) + " missing"@,
            MaskReason::UnknownComponent { component } => "unknown component "@ + decimal(component@ as nat),
            MaskReason::FieldCountMismatch { expected, actual } => "expected "@ + decimal(expected as nat) + " fields, found "@
                + decimal(actual as nat),
            MaskReason::ComponentPresenceMismatch { component } => "component "@ + decimal(component@ as nat)
                + " present on one side only"@,
            MaskReason::InvalidComponentId { raw } => "invalid component id "@ + decimal(raw as nat),
            MaskReason::EmptyFieldMask { component } => "no changed field for component "@ + decimal(component@ as nat),
            MaskReason::InvalidFieldIndex { field_index, max } => "field index "@ + decimal(field_index as nat)
                + " out of range (max "@ + decimal(max as nat) + ")"@,
        }
    }

    /// Appends what is wrong with the mask.
    pub fn push_message(&self, s: &mut String)
        ensures
            final(s)@ == old(s)@ + self.message(),
    {
        let ghost s0 = s@;
        match self {
            MaskReason::NotEnoughBits { expected, available } => {
                s.append("expected ");
                push_decimal(s, *expected as u64);
                s.append(" bits, ");
                push_decimal(s, *available as u64);
                s.append(" available");
            },
            MaskReason::MissingField { field } => {
                s.append("field ");
                push_decimal(s, field.get() as u64);
                s.append(" missing");
            },
            MaskReason::UnknownComponent { component } => {
                s.append("unknown component ");
                push_decimal(s, component.get() as u64);
            },
            MaskReason::FieldCountMismatch { expected, actual } => {
                s.append("expected ");
                push_decimal(s, *expected as u64);
                s.append(" fields, found ");
                push_decimal(s, *actual as u64);
            },
            MaskReason::ComponentPresenceMismatch { component } => {
                s.append("component ");
                push_decimal(s, component.get() as u64);
                s.append(" present on one side only");
            },
            MaskReason::InvalidComponentId { raw } => {
                s.append("invalid component id ");
                push_decimal(s, *raw as u64);
            },
            MaskReason::EmptyFieldMask { component } => {
                s.append("no changed field for component ");
                push_decimal(s, component.get() as u64);
            },
            MaskReason::InvalidFieldIndex { field_index, max } => {
                s.append("field index ");
                push_decimal(s, *field_index as u64);
                s.append(" out of range (max ");
                push_decimal(s, *max as u64);
                s.append(")");
            },
        }
        assert(s@ =~= s0 + self.message());
    }
}

impl ValueReason {
    /// Why the value does not fit.
    pub open spec fn message(&self) -> Seq<char> {
        match *self {
            ValueReason::UnsignedOutOfRange { bits, value } => decimal(value as nat) + " does not fit in "@ + decimal(
                bits as nat,
            ) + " unsigned bits"@,
            ValueReason::SignedOutOfRange { bits, value } => signed_decimal(value as int) + " does not fit in "@ + decimal(
                bits as nat,
            ) + " signed bits"@,
            ValueReason::VarUIntOutOfRange { value } => decimal(value as nat) + " is out of the varuint range"@,
            ValueReason::VarSIntOutOfRange { value } => signed_decimal(value as int) + " is out of the varsint range"@,
            ValueReason::FixedPointOutOfRange { min_q, max_q, value } => signed_decimal(value as int) + " is outside "@
                + signed_decimal(min_q as int) + "..="@ + signed_decimal(max_q as int),
            ValueReason::TypeMismatch { expected, found } => "expected "@ + expected@ + ", found "@ + found@,
        }
    }

    /// Appends why the value does not fit.
    pub fn push_message(&self, s: &mut String)
        ensures
            final(s)@ == old(s)@ + self.message(),
    {
        let ghost s0 = s@;
        match self {
            ValueReason::UnsignedOutOfRange { bits, value } => {
                push_decimal(s, *value);
                s.append(" does not fit in ");
                push_decimal(s, *bits as u64);
                s.append(" unsigned bits");
            },
            ValueReason::SignedOutOfRange { bits, value } => {
                push_signed(s, *value);
                s.append(" does not fit in ");
                push_decimal(s, *bits as u64);
                s.append(" signed bits");
            },
            ValueReason::VarUIntOutOfRange { value } => {
                push_decimal(s, *value);
                s.append(" is out of the varuint range");
            },
            ValueReason::VarSIntOutOfRange { value } => {
                push_signed(s, *value);
                s.append(" is out of the varsint range");
            },
            ValueReason::FixedPointOutOfRange { min_q, max_q, value } => {
                push_signed(s, *value);
                s.append(" is outside ");
                push_signed(s, *min_q);
                s.append("..=");
                push_signed(s, *max_q);
            },
            ValueReason::TypeMismatch { expected, found } => {
                s.append("expected ");
                s.append(expected);
                s.append(", found ");
                s.append(found);
            },
        }
        assert(s@ =~= s0 + self.message());
    }
}

impl CodecError {
    /// The error's message.
    pub open spec fn message(&self) -> Seq<char> {
        match *self {
            CodecError::Wire(e) => "wire error: "@ + e.message(),
            CodecError::Bitstream(e) => "bitstream error: "@ + e.message(),
            CodecError::BaselineNotFound { requested_tick } => "baseline tick "@ + decimal(requested_tick as nat)
                + " not found in history"@,
            CodecError::EntityNotFound { entity_id } => "entity "@ + decimal(entity_id as nat) + " not found"@,
            CodecError::ComponentNotFound { entity_id, component_id } => "component "@ + decimal(component_id as nat)
                + " not found on entity "@ + decimal(entity_id as nat),
            CodecError::DuplicateEntity { entity_id } => "duplicate entity "@ + decimal(entity_id as nat)
                + " in create section"@,
            CodecError::EntityAlreadyExists { entity_id } => "entity "@ + decimal(entity_id as nat) + " already exists"@,
            CodecError::OutputTooSmall { needed, available } => "output buffer too small: need "@ + decimal(needed as nat)
                + ", have "@ + decimal(available as nat),
            CodecError::LimitsExceeded { kind, limit, actual } => kind.name() + " limit exceeded: "@ + decimal(actual as nat)
                + " > "@ + decimal(limit as nat),
            CodecError::InvalidMask { kind, reason } => "invalid "@ + kind.name() + ": "@ + reason.message(),
            CodecError::InvalidValue { component, field, reason } => "invalid value for field "@ + decimal(field@ as nat)
                + " of component "@ + decimal(component@ as nat) + ": "@ + reason.message(),
            CodecError::InvalidEntityOrder { previous, current } => "entity "@ + decimal(current as nat)
                + " out of order after "@ + decimal(previous as nat),
            CodecError::SchemaMismatch { expected, found } => "schema hash mismatch: expected 0x"@ + hex_digits(
                expected as nat,
                16,
            ) + ", found 0x"@ + hex_digits(found as nat, 16),
            CodecError::DuplicateSection { section } => "duplicate section "@ + decimal(tag_raw(section) as nat),
            CodecError::UnexpectedSection { section } => "unexpected section "@ + decimal(tag_raw(section) as nat),
            CodecError::TrailingSectionData { section, remaining_bits } => "section "@ + decimal(tag_raw(section) as nat)
                + " has "@ + decimal(remaining_bits as nat) + " trailing bits"@,
            CodecError::BaselineTickMismatch { expected, found } => "baseline tick mismatch: expected "@ + decimal(
                expected as nat,
            ) + ", found "@ + decimal(found as nat),
            CodecError::DuplicateUpdateEncoding => "both masked and sparse update sections present"@,
            CodecError::SessionMissing => "compact packet without a session"@,
            CodecError::SessionInitInvalid => "invalid session init packet"@,
            CodecError::SessionUnsupportedMode { mode } => "unsupported compact header mode "@ + decimal(mode as nat),
            CodecError::SessionOutOfOrder { previous, current } => "session packet tick "@ + decimal(current as nat)
                + " is not after "@ + decimal(previous as nat),
        }
    }

    /// Appends the error's message.
    #[verifier::rlimit(30)]
    pub fn push_message(&self, s: &mut String)
        ensures
            final(s)@ == old(s)@ + self.message(),
    {
        let ghost s0 = s@;
        match self {
            CodecError::Wire(e) => {
                s.append("wire error: ");
                e.push_message(s);
            },
            CodecError::Bitstream(e) => {
                s.append("bitstream error: ");
                let t = e.to_string();
                s.append(t.as_str());
            },
            CodecError::BaselineNotFound { requested_tick } => {
                s.append("baseline tick ");
                push_decimal(s, *requested_tick as u64);
                s.append(" not found in history");
            },
            CodecError::EntityNotFound { entity_id } => {
                s.append("entity ");
                push_decimal(s, *entity_id as u64);
                s.append(" not found");
            },
            CodecError::ComponentNotFound { entity_id, component_id } => {
                s.append("component ");
                push_decimal(s, *component_id as u64);
                s.append(" not found on entity ");
                push_decimal(s, *entity_id as u64);
            },
            CodecError::DuplicateEntity { entity_id } => {
                s.append("duplicate entity ");
                push_decimal(s, *entity_id as u64);
                s.append(" in create section");
            },
            CodecError::EntityAlreadyExists { entity_id } => {
                s.append("entity ");
                push_decimal(s, *entity_id as u64);
                s.append(" already exists");
            },
            CodecError::OutputTooSmall { needed, available } => {
                s.append("output buffer too small: need ");
                push_decimal(s, *needed as u64);
                s.append(", have ");
                push_decimal(s, *available as u64);
            },
            CodecError::LimitsExceeded { kind, limit, actual } => {
                kind.push_name(s);
                s.append(" limit exceeded: ");
                push_decimal(s, *actual as u64);
                s.append(" > ");
                push_decimal(s, *limit as u64);
            },
            CodecError::InvalidMask { kind, reason } => {
                s.append("invalid ");
                kind.push_name(s);
                s.append(": ");
                reason.push_message(s);
            },
            CodecError::InvalidValue { component, field, reason } => {
                s.append("invalid value for field ");
                push_decimal(s, field.get() as u64);
                s.append(" of component ");
                push_decimal(s, component.get() as u64);
                s.append(": ");
                reason.push_message(s);
            },
            CodecError::InvalidEntityOrder { previous, current } => {
                s.append("entity ");
                push_decimal(s, *current as u64);
                s.append(" out of order after ");
                push_decimal(s, *previous as u64);
            },
            CodecError::SchemaMismatch { expected, found } => {
                s.append("schema hash mismatch: expected 0x");
                push_hex(s, *expected, 16);
                s.append(", found 0x");
                push_hex(s, *found, 16);
            },
            CodecError::DuplicateSection { section } => {
                s.append("duplicate section ");
                push_decimal(s, section.raw() as u64);
            },
            CodecError::UnexpectedSection { section } => {
                s.append("unexpected section ");
                push_decimal(s, section.raw() as u64);
            },
            CodecError::TrailingSectionData { section, remaining_bits } => {
                s.append("section ");
                push_decimal(s, section.raw() as u64);
                s.append(" has ");
                push_decimal(s, *remaining_bits as u64);
                s.append(" trailing bits");
            },
            CodecError::BaselineTickMismatch { expected, found } => {
                s.append("baseline tick mismatch: expected ");
                push_decimal(s, *expected as u64);
                s.append(", found ");
                push_decimal(s, *found as u64);
            },
            CodecError::DuplicateUpdateEncoding => s.append("both masked and sparse update sections present"),
            CodecError::SessionMissing => s.append("compact packet without a session"),
            CodecError::SessionInitInvalid => s.append("invalid session init packet"),
            CodecError::SessionUnsupportedMode { mode } => {
                s.append("unsupported compact header mode ");
                push_decimal(s, *mode as u64);
            },
            CodecError::SessionOutOfOrder { previous, current } => {
                s.append("session packet tick ");
                push_decimal(s, *current as u64);
                s.append(" is not after ");
                push_decimal(s, *previous as u64);
            },
        }
        assert(s@ =~= s0 + self.message());
    }

    /// The error as text.
    pub fn to_string(&self) -> (r: String)
        ensures
            r@ == self.message(),
    {
        let mut s = String::new();
        self.push_message(&mut s);
        assert(s@ =~= self.message());
        s
    }

    /// The wire error this error wraps, if any.
    pub fn source(&self) -> (r: Option<&DecodeError>)
        ensures
            match *self {
                CodecError::Wire(e) => r == Some(&e),
                _ => r is None,
            },
    {
        match self {
            CodecError::Wire(e) => Some(e),
            _ => None,
        }
    }

    /// Whether the error calls for a resync: a missing or broken session, a
    /// session or baseline tick out of order, or a missing or mismatched
    /// baseline. The peer then re-sends a session init and a full snapshot.
    pub open spec fn resync_needed(&self) -> bool {
        match *self {
            CodecError::SessionMissing => true,
            CodecError::SessionInitInvalid => true,
            CodecError::SessionUnsupportedMode { .. } => true,
            CodecError::SessionOutOfOrder { .. } => true,
            CodecError::BaselineNotFound { .. } => true,
            CodecError::BaselineTickMismatch { .. } => true,
            CodecError::Wire(DecodeError::InvalidBaselineTick { .. }) => true,
            _ => false,
        }
    }

    /// Whether the error calls for a resync (see `resync_needed`).
    pub fn needs_resync(&self) -> (r: bool)
        ensures
            r == self.resync_needed(),
    {
        match self {
            CodecError::SessionMissing => true,
            CodecError::SessionInitInvalid => true,
            CodecError::SessionUnsupportedMode { .. } => true,
            CodecError::SessionOutOfOrder { .. } => true,
            CodecError::BaselineNotFound { .. } => true,
            CodecError::BaselineTickMismatch { .. } => true,
            CodecError::Wire(DecodeError::InvalidBaselineTick { .. }) => true,
            _ => false,
        }
    }
}

/// Result type for codec operations.
pub type CodecResult<T> = Result<T, CodecError>;

impl From<DecodeError> for CodecError {
    fn from(err: DecodeError) -> (r: Self) {
        CodecError::Wire(err)
    }
}

impl vstd::std_specs::convert::FromSpecImpl<DecodeError> for CodecError {
    open spec fn obeys_from_spec() -> bool {
        true
    }

    open spec fn from_spec(v: DecodeError) -> CodecError {
        CodecError::Wire(v)
    }
}

impl From<BitError> for CodecError {
    fn from(err: BitError) -> (r: Self) {
        CodecError::Bitstream(err)
    }
}

impl vstd::std_specs::convert::FromSpecImpl<BitError> for CodecError {
    open spec fn obeys_from_spec() -> bool {
        true
    }

    open spec fn from_spec(v: BitError) -> CodecError {
        CodecError::Bitstream(v)
    }
}

} // verus!
