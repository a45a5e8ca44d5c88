//! Comparing a baseline with a current snapshot: which entities are
//! destroyed, created or matched, which fields changed, and size estimates.
use super::error::{CodecError, CodecResult, LimitKind, MaskKind, MaskReason, ValueReason};
use super::limits::CodecLimits;
use super::model::{codec_name, codec_name_spec, required_bits, required_bits_spec, value_name, value_name_spec, FieldValue};
use super::scratch::CodecScratch;
use super::snapshot::{
    entities_view, find_comp, find_component, ComponentSnapshot, ComponentV, EntitySnapshot, EntityV,
};
use crate::bitstream::bits::varu32_bytes;
use crate::bitstream::varu32_len;
use crate::schema::{ChangePolicy, ComponentDef, ComponentId, FieldDef};
use vstd::prelude::*;

verus! {

// ---------------------------------------------------------------------------
// Field changes.
/// `|a - b|`.
pub open spec fn dist(a: int, b: int) -> int {
    if a >= b {
        a - b
    } else {
        b - a
    }
}

/// Whether two values of the same kind differ; `None` for different kinds.
pub open spec fn value_differs(a: FieldValue, b: FieldValue) -> Option<bool> {
    match (a, b) {
        (FieldValue::Bool(x), FieldValue::Bool(y)) => Some(x != y),
        (FieldValue::UInt(x), FieldValue::UInt(y)) => Some(x != y),
        (FieldValue::SInt(x), FieldValue::SInt(y)) => Some(x != y),
        (FieldValue::VarUInt(x), FieldValue::VarUInt(y)) => Some(x != y),
        (FieldValue::VarSInt(x), FieldValue::VarSInt(y)) => Some(x != y),
        (FieldValue::FixedPoint(x), FieldValue::FixedPoint(y)) => Some(x != y),
        _ => None,
    }
}

/// Whether two values of the same kind are further apart than `t`
/// (booleans: differ); `None` for different kinds.
pub open spec fn value_exceeds(a: FieldValue, b: FieldValue, t: u32) -> Option<bool> {
    match (a, b) {
        (FieldValue::FixedPoint(x), FieldValue::FixedPoint(y)) => Some(dist(x as int, y as int) > t),
        (FieldValue::UInt(x), FieldValue::UInt(y)) => Some(dist(x as int, y as int) > t),
        (FieldValue::SInt(x), FieldValue::SInt(y)) => Some(dist(x as int, y as int) > t),
        (FieldValue::VarUInt(x), FieldValue::VarUInt(y)) => Some(dist(x as int, y as int) > t),
        (FieldValue::VarSInt(x), FieldValue::VarSInt(y)) => Some(dist(x as int, y as int) > t),
        (FieldValue::Bool(x), FieldValue::Bool(y)) => Some(x != y),
        _ => None,
    }
}

/// Whether a field counts as changed between a baseline and a current value.
pub open spec fn field_change(cid: ComponentId, f: FieldDef, a: FieldValue, b: FieldValue) -> Result<bool, CodecError> {
    let r = match f.change {
        ChangePolicy::Always => value_differs(a, b),
        ChangePolicy::Threshold { threshold_q } => value_exceeds(a, b, threshold_q),
    };
    match r {
        Some(x) => Ok(x),
        None => Err(
            CodecError::InvalidValue {
                component: cid,
                field: f.id,
                reason: ValueReason::TypeMismatch {
                    expected: codec_name_spec(f.codec),
                    found: value_name_spec(b),
                },
            },
        ),
    }
}

/// Under a threshold policy a numeric field counts as changed exactly when
/// its value moved by more than the threshold, up or down; under the
/// `Always` policy exactly when it differs. Either way the test does not
/// depend on which of the two values is the baseline.
pub proof fn lemma_change_policy(cid: ComponentId, f: FieldDef, a: i64, b: i64, x: u64, y: u64)
    ensures
        f.change matches ChangePolicy::Threshold { threshold_q } ==> {
            &&& field_change(cid, f, FieldValue::FixedPoint(a), FieldValue::FixedPoint(b)) == Ok::<bool, CodecError>(
                a - b > threshold_q || b - a > threshold_q)
            &&& field_change(cid, f, FieldValue::SInt(a), FieldValue::SInt(b)) == Ok::<bool, CodecError>(
                a - b > threshold_q || b - a > threshold_q)
            &&& field_change(cid, f, FieldValue::VarSInt(a), FieldValue::VarSInt(b)) == Ok::<bool, CodecError>(
                a - b > threshold_q || b - a > threshold_q)
            &&& field_change(cid, f, FieldValue::UInt(x), FieldValue::UInt(y)) == Ok::<bool, CodecError>(
                x - y > threshold_q || y - x > threshold_q)
            &&& field_change(cid, f, FieldValue::VarUInt(x), FieldValue::VarUInt(y)) == Ok::<bool, CodecError>(
                x - y > threshold_q || y - x > threshold_q)
        },
        f.change is Always ==> {
            &&& field_change(cid, f, FieldValue::FixedPoint(a), FieldValue::FixedPoint(b)) == Ok::<bool, CodecError>(a != b)
            &&& field_change(cid, f, FieldValue::SInt(a), FieldValue::SInt(b)) == Ok::<bool, CodecError>(a != b)
            &&& field_change(cid, f, FieldValue::VarSInt(a), FieldValue::VarSInt(b)) == Ok::<bool, CodecError>(a != b)
            &&& field_change(cid, f, FieldValue::UInt(x), FieldValue::UInt(y)) == Ok::<bool, CodecError>(x != y)
            &&& field_change(cid, f, FieldValue::VarUInt(x), FieldValue::VarUInt(y)) == Ok::<bool, CodecError>(x != y)
        },
        field_change(cid, f, FieldValue::FixedPoint(a), FieldValue::FixedPoint(b)) == field_change(
            cid,
            f,
            FieldValue::FixedPoint(b),
            FieldValue::FixedPoint(a),
        ),
        field_change(cid, f, FieldValue::SInt(a), FieldValue::SInt(b)) == field_change(
            cid,
            f,
            FieldValue::SInt(b),
            FieldValue::SInt(a),
        ),
        field_change(cid, f, FieldValue::UInt(x), FieldValue::UInt(y)) == field_change(
            cid,
            f,
            FieldValue::UInt(y),
            FieldValue::UInt(x),
        ),
{
}

fn abs_diff_i64(a: i64, b: i64) -> (r: u64)
    ensures
        r == dist(a as int, b as int),
{
    let d = (a as i128) - (b as i128);
    if d >= 0 {
        d as u64
    } else {
        (-d) as u64
    }
}

fn abs_diff_u64(a: u64, b: u64) -> (r: u64)
    ensures
        r == dist(a as int, b as int),
{
    if a >= b {
        a - b
    } else {
        b - a
    }
}

/// Whether a field changed under its change policy.
pub fn field_changed(cid: ComponentId, field: FieldDef, baseline: FieldValue, current: FieldValue) -> (r:
    CodecResult<bool>)
    ensures
        r == field_change(cid, field, baseline, current),
{
    let res = match field.change {
        ChangePolicy::Always => match (baseline, current) {
            (FieldValue::Bool(a), FieldValue::Bool(b)) => Some(a != b),
            (FieldValue::UInt(a), FieldValue::UInt(b)) => Some(a != b),
            (FieldValue::SInt(a), FieldValue::SInt(b)) => Some(a != b),
            (FieldValue::VarUInt(a), FieldValue::VarUInt(b)) => Some(a != b),
            (FieldValue::VarSInt(a), FieldValue::VarSInt(b)) => Some(a != b),
            (FieldValue::FixedPoint(a), FieldValue::FixedPoint(b)) => Some(a != b),
            _ => None,
        },
        ChangePolicy::Threshold { threshold_q } => {
            let t = threshold_q as u64;
            match (baseline, current) {
                (FieldValue::FixedPoint(a), FieldValue::FixedPoint(b)) => Some(abs_diff_i64(a, b) > t),
                (FieldValue::UInt(a), FieldValue::UInt(b)) => Some(abs_diff_u64(a, b) > t),
                (FieldValue::SInt(a), FieldValue::SInt(b)) => Some(abs_diff_i64(a, b) > t),
                (FieldValue::VarUInt(a), FieldValue::VarUInt(b)) => Some(abs_diff_u64(a, b) > t),
                (FieldValue::VarSInt(a), FieldValue::VarSInt(b)) => Some(abs_diff_i64(a, b) > t),
                (FieldValue::Bool(a), FieldValue::Bool(b)) => Some(a != b),
                _ => None,
            }
        },
    };
    match res {
        Some(x) => Ok(x),
        None => Err(
            CodecError::InvalidValue {
                component: cid,
                field: field.id,
                reason: ValueReason::TypeMismatch {
                    expected: codec_name(field.codec),
                    found: value_name(current),
                },
            },
        ),
    }
}

/// The change mask of fields `k..`.
pub open spec fn mask_from(
    cid: ComponentId,
    fs: Seq<FieldDef>,
    bv: Seq<FieldValue>,
    cv: Seq<FieldValue>,
    k: nat,
) -> Result<Seq<bool>, CodecError>
    decreases fs.len() - k,
{
    if k >= fs.len() {
        Ok(Seq::empty())
    } else {
        match field_change(cid, fs[k as int], bv[k as int], cv[k as int]) {
            Err(e) => Err(e),
            Ok(x) => match mask_from(cid, fs, bv, cv, k + 1) {
                Err(e) => Err(e),
                Ok(rest) => Ok(seq![x] + rest),
            },
        }
    }
}

/// Fills `mask[..n]` with the change bit of each field.
pub fn compute_field_mask_into(
    component: &ComponentDef,
    baseline: &ComponentSnapshot,
    current: &ComponentSnapshot,
    mask: &mut Vec<bool>,
) -> (r: CodecResult<()>)
    requires
        baseline.fields@.len() == component.fields@.len(),
        current.fields@.len() == component.fields@.len(),
        old(mask)@.len() >= component.fields@.len(),
    ensures
        final(mask)@.len() == old(mask)@.len(),
        match mask_from(component.id, component.fields@, baseline.fields@, current.fields@, 0) {
            Ok(m) => r is Ok && final(mask)@.take(component.fields@.len() as int) == m,
            Err(e) => r == Err::<(), CodecError>(e),
        },
{
    let n = component.fields.len();
    let mut k: usize = 0;
    let ghost total = mask_from(component.id, component.fields@, baseline.fields@, current.fields@, 0);
    while k < n
        invariant
            n == component.fields@.len(),
            n == baseline.fields@.len(),
            n == current.fields@.len(),
            k <= n,
            old(mask)@.len() >= n,
            mask@.len() == old(mask)@.len(),
            total == mask_from(component.id, component.fields@, baseline.fields@, current.fields@, 0),
            total == match mask_from(component.id, component.fields@, baseline.fields@, current.fields@, k as nat) {
                Err(e) => Err(e),
                Ok(rest) => Ok(mask@.take(k as int) + rest),
            },
        decreases n - k,
    {
        let x = field_changed(component.id, component.fields[k], baseline.fields[k], current.fields[k])?;
        let ghost before = mask@;
        mask.set(k, x);
        proof {
            assert(mask@.take(k + 1) =~= before.take(k as int) + seq![x]);
            let nxt = mask_from(component.id, component.fields@, baseline.fields@, current.fields@, (k + 1) as nat);
            if let Ok(rest) = nxt {
                assert(before.take(k as int) + (seq![x] + rest) =~= mask@.take(k + 1) + rest);
            }
        }
        k = k + 1;
    }
    assert(mask@.take(n as int) + Seq::<bool>::empty() =~= mask@.take(n as int));
    Ok(())
}

/// Number of set bits.
pub open spec fn count_true(s: Seq<bool>) -> nat
    decreases s.len(),
{
    if s.len() == 0 {
        0
    } else {
        count_true(s.drop_last()) + if s.last() {
            1nat
        } else {
            0nat
        }
    }
}

/// Counts the set bits of `mask[..n]`.
pub fn count_set(mask: &Vec<bool>, n: usize) -> (r: usize)
    requires
        n <= mask@.len(),
    ensures
        r == count_true(mask@.take(n as int)),
        r <= n,
{
    let mut c: usize = 0;
    let mut k: usize = 0;
    assert(mask@.take(0) =~= Seq::<bool>::empty());
    while k < n
        invariant
            k <= n <= mask@.len(),
            c == count_true(mask@.take(k as int)),
            c <= k,
        decreases n - k,
    {
        assert(mask@.take(k + 1).drop_last() =~= mask@.take(k as int));
        if mask[k] {
            c = c + 1;
        }
        k = k + 1;
    }
    c
}

// ---------------------------------------------------------------------------
// Entities.
/// The first schema component from `k` on that one entity has and the other
/// does not.
pub open spec fn presence_error(comps: Seq<ComponentDef>, bcs: Seq<ComponentV>, ccs: Seq<ComponentV>, k: nat) -> Option<
    CodecError,
>
    decreases comps.len() - k,
{
    if k >= comps.len() {
        None
    } else if (find_comp(bcs, comps[k as int].id) is Some) != (find_comp(ccs, comps[k as int].id) is Some) {
        Some(
            CodecError::InvalidMask {
                kind: MaskKind::ComponentMask,
                reason: MaskReason::ComponentPresenceMismatch { component: comps[k as int].id },
            },
        )
    } else {
        presence_error(comps, bcs, ccs, k + 1)
    }
}

/// Checks that both entities have the same schema components.
pub fn ensure_component_presence_matches(
    comps: &Vec<ComponentDef>,
    baseline: &EntitySnapshot,
    current: &EntitySnapshot,
) -> (r: CodecResult<()>)
    ensures
        match presence_error(comps@, baseline@.1, current@.1, 0) {
            Some(e) => r == Err::<(), CodecError>(e),
            None => r is Ok,
        },
{
    let n = comps.len();
    let mut k: usize = 0;
    while k < n
        invariant
            n == comps@.len(),
            k <= n,
            presence_error(comps@, baseline@.1, current@.1, 0) == presence_error(comps@, baseline@.1, current@.1, k as nat),
        decreases n - k,
    {
        let b = find_component(baseline, comps[k].id).is_some();
        let c = find_component(current, comps[k].id).is_some();
        if b != c {
            return Err(
                CodecError::InvalidMask {
                    kind: MaskKind::ComponentMask,
                    reason: MaskReason::ComponentPresenceMismatch { component: comps[k].id },
                },
            );
        }
        k = k + 1;
    }
    Ok(())
}

/// Field count checks on a component both entities have.
pub open spec fn pair_check(c: ComponentDef, bv: Seq<FieldValue>, cv: Seq<FieldValue>, limits: CodecLimits) -> Option<
    CodecError,
> {
    let n = c.fields@.len();
    if bv.len() != n || cv.len() != n {
        Some(
            CodecError::InvalidMask {
                kind: MaskKind::FieldMask { component: c.id },
                reason: MaskReason::FieldCountMismatch {
                    expected: n as usize,
                    actual: if bv.len() >= cv.len() {
                        bv.len() as usize
                    } else {
                        cv.len() as usize
                    },
                },
            },
        )
    } else if n > limits.max_fields_per_component {
        Some(
            CodecError::LimitsExceeded {
                kind: LimitKind::FieldsPerComponent,
                limit: limits.max_fields_per_component,
                actual: n as usize,
            },
        )
    } else {
        None
    }
}

/// Runs the field count checks on one component pair.
pub fn check_pair(
    component: &ComponentDef,
    baseline: &ComponentSnapshot,
    current: &ComponentSnapshot,
    limits: &CodecLimits,
) -> (r: CodecResult<()>)
    ensures
        match pair_check(*component, baseline.fields@, current.fields@, *limits) {
            Some(e) => r == Err::<(), CodecError>(e),
            None => r is Ok,
        },
{
    let n = component.fields.len();
    let bl = baseline.fields.len();
    let cl = current.fields.len();
    if bl != n || cl != n {
        return Err(
            CodecError::InvalidMask {
                kind: MaskKind::FieldMask { component: component.id },
                reason: MaskReason::FieldCountMismatch {
                    expected: n,
                    actual: if bl >= cl {
                        bl
                    } else {
                        cl
                    },
                },
            },
        );
    }
    if n > limits.max_fields_per_component {
        return Err(
            CodecError::LimitsExceeded {
                kind: LimitKind::FieldsPerComponent,
                limit: limits.max_fields_per_component,
                actual: n,
            },
        );
    }
    Ok(())
}

/// Whether some field from `k` on changed (stopping at the first one).
pub open spec fn any_change_from(
    cid: ComponentId,
    fs: Seq<FieldDef>,
    bv: Seq<FieldValue>,
    cv: Seq<FieldValue>,
    k: nat,
) -> Result<bool, CodecError>
    decreases fs.len() - k,
{
    if k >= fs.len() {
        Ok(false)
    } else {
        match field_change(cid, fs[k as int], bv[k as int], cv[k as int]) {
            Err(e) => Err(e),
            Ok(true) => Ok(true),
            Ok(false) => any_change_from(cid, fs, bv, cv, k + 1),
        }
    }
}

/// Whether some schema component from `k` on that both entities have has a
/// changed field.
pub open spec fn comps_changed_from(
    comps: Seq<ComponentDef>,
    bcs: Seq<ComponentV>,
    ccs: Seq<ComponentV>,
    limits: CodecLimits,
    k: nat,
) -> Result<bool, CodecError>
    decreases comps.len() - k,
{
    if k >= comps.len() {
        Ok(false)
    } else {
        match (find_comp(bcs, comps[k as int].id), find_comp(ccs, comps[k as int].id)) {
            (Some(bi), Some(ci)) => match pair_check(comps[k as int], bcs[bi as int].1, ccs[ci as int].1, limits) {
                Some(e) => Err(e),
                None => match any_change_from(
                    comps[k as int].id,
                    comps[k as int].fields@,
                    bcs[bi as int].1,
                    ccs[ci as int].1,
                    0,
                ) {
                    Err(e) => Err(e),
                    Ok(true) => Ok(true),
                    Ok(false) => comps_changed_from(comps, bcs, ccs, limits, k + 1),
                },
            },
            _ => comps_changed_from(comps, bcs, ccs, limits, k + 1),
        }
    }
}

/// Whether a matched entity has a field change to send.
pub open spec fn has_updates(comps: Seq<ComponentDef>, b: EntityV, c: EntityV, limits: CodecLimits) -> Result<
    bool,
    CodecError,
> {
    match presence_error(comps, b.1, c.1, 0) {
        Some(e) => Err(e),
        None => comps_changed_from(comps, b.1, c.1, limits, 0),
    }
}

fn any_field_changed(component: &ComponentDef, baseline: &ComponentSnapshot, current: &ComponentSnapshot) -> (r:
    CodecResult<bool>)
    requires
        baseline.fields@.len() == component.fields@.len(),
        current.fields@.len() == component.fields@.len(),
    ensures
        r == any_change_from(component.id, component.fields@, baseline.fields@, current.fields@, 0),
{
    let n = component.fields.len();
    let mut k: usize = 0;
    while k < n
        invariant
            n == component.fields@.len(),
            n == baseline.fields@.len(),
            n == current.fields@.len(),
            k <= n,
            any_change_from(component.id, component.fields@, baseline.fields@, current.fields@, 0)
                == any_change_from(component.id, component.fields@, baseline.fields@, current.fields@, k as nat),
        decreases n - k,
    {
        if field_changed(component.id, component.fields[k], baseline.fields[k], current.fields[k])? {
            return Ok(true);
        }
        k = k + 1;
    }
    Ok(false)
}

/// Whether a matched entity has any changed field.
pub fn entity_has_updates(
    comps: &Vec<ComponentDef>,
    baseline: &EntitySnapshot,
    current: &EntitySnapshot,
    limits: &CodecLimits,
) -> (r: CodecResult<bool>)
    ensures
        r == has_updates(comps@, baseline@, current@, *limits),
{
    ensure_component_presence_matches(comps, baseline, current)?;
    let n = comps.len();
    let mut k: usize = 0;
    while k < n
        invariant
            n == comps@.len(),
            k <= n,
            has_updates(comps@, baseline@, current@, *limits) == comps_changed_from(
                comps@,
                baseline@.1,
                current@.1,
                *limits,
                k as nat,
            ),
        decreases n - k,
    {
        let c = &comps[k];
        match (find_component(baseline, c.id), find_component(current, c.id)) {
            (Some(bi), Some(ci)) => {
                let b = &baseline.components[bi];
                let cu = &current.components[ci];
                assert(baseline@.1[bi as int] == b@);
                assert(current@.1[ci as int] == cu@);
                check_pair(c, b, cu, limits)?;
                if any_field_changed(c, b, cu)? {
                    return Ok(true);
                }
            },
            _ => {},
        }
        k = k + 1;
    }
    Ok(false)
}

/// The first place from `k` on where entity ids do not increase.
pub open spec fn order_error(es: Seq<EntityV>, k: nat) -> Option<CodecError>
    decreases es.len() - k,
{
    if k >= es.len() {
        None
    } else if k > 0 && es[k as int].0@ <= es[k - 1].0@ {
        Some(CodecError::InvalidEntityOrder { previous: es[k - 1].0@, current: es[k as int].0@ })
    } else {
        order_error(es, k + 1)
    }
}

/// Checks that entity ids are strictly increasing.
pub fn ensure_entities_sorted(entities: &[EntitySnapshot]) -> (r: CodecResult<()>)
    ensures
        match order_error(entities_view(entities@), 0) {
            Some(e) => r == Err::<(), CodecError>(e),
            None => r is Ok,
        },
{
    let ghost es = entities_view(entities@);
    let n = entities.len();
    let mut k: usize = 0;
    while k < n
        invariant
            n == entities@.len(),
            es == entities_view(entities@),
            k <= n,
            order_error(es, 0) == order_error(es, k as nat),
        decreases n - k,
    {
        if k > 0 && entities[k].id.raw() <= entities[k - 1].id.raw() {
            return Err(
                CodecError::InvalidEntityOrder {
                    previous: entities[k - 1].id.raw(),
                    current: entities[k].id.raw(),
                },
            );
        }
        k = k + 1;
    }
    Ok(())
}

// ---------------------------------------------------------------------------
// Matching baseline and current entities by id.
/// Walking two id lists in step: the baseline indices with no partner, the
/// current indices with no partner, and the matched pairs, in walk order.
pub open spec fn walk(b: Seq<u32>, c: Seq<u32>, i: nat, j: nat) -> (Seq<nat>, Seq<nat>, Seq<(nat, nat)>)
    decreases (if i < b.len() {
        b.len() - i
    } else {
        0
    }) + (if j < c.len() {
        c.len() - j
    } else {
        0
    }),
{
    if i < b.len() && j < c.len() {
        if b[i as int] < c[j as int] {
            let r = walk(b, c, i + 1, j);
            (seq![i] + r.0, r.1, r.2)
        } else if b[i as int] > c[j as int] {
            let r = walk(b, c, i, j + 1);
            (r.0, seq![j] + r.1, r.2)
        } else {
            let r = walk(b, c, i + 1, j + 1);
            (r.0, r.1, seq![(i, j)] + r.2)
        }
    } else if i < b.len() {
        let r = walk(b, c, i + 1, j);
        (seq![i] + r.0, r.1, r.2)
    } else if j < c.len() {
        let r = walk(b, c, i, j + 1);
        (r.0, seq![j] + r.1, r.2)
    } else {
        (Seq::empty(), Seq::empty(), Seq::empty())
    }
}

/// Entity ids.
pub open spec fn ids(es: Seq<EntityV>) -> Seq<u32> {
    es.map_values(|e: EntityV| e.0@)
}

/// The walk over two entity lists.
pub open spec fn entity_walk(b: Seq<EntityV>, c: Seq<EntityV>) -> (Seq<nat>, Seq<nat>, Seq<(nat, nat)>) {
    walk(ids(b), ids(c), 0, 0)
}

/// Indices of destroyed, created and matched entities.
pub struct EntityWalk {
    pub destroys: Vec<usize>,
    pub creates: Vec<usize>,
    pub pairs: Vec<(usize, usize)>,
}

/// Indices as naturals.
pub open spec fn nats(v: Seq<usize>) -> Seq<nat> {
    v.map_values(|x: usize| x as nat)
}

/// Index pairs as naturals.
pub open spec fn nat_pairs(v: Seq<(usize, usize)>) -> Seq<(nat, nat)> {
    v.map_values(|x: (usize, usize)| (x.0 as nat, x.1 as nat))
}

/// Matches baseline and current entities by id.
pub fn walk_entities(baseline: &[EntitySnapshot], current: &[EntitySnapshot]) -> (r: EntityWalk)
    ensures
        (nats(r.destroys@), nats(r.creates@), nat_pairs(r.pairs@)) == entity_walk(
            entities_view(baseline@),
            entities_view(current@),
        ),
        forall|k: int| 0 <= k < r.destroys@.len() ==> r.destroys@[k] < baseline@.len(),
        forall|k: int| 0 <= k < r.creates@.len() ==> r.creates@[k] < current@.len(),
        forall|k: int| 0 <= k < r.pairs@.len() ==> r.pairs@[k].0 < baseline@.len() && r.pairs@[k].1 < current@.len(),
{
    let ghost b = ids(entities_view(baseline@));
    let ghost c = ids(entities_view(current@));
    let mut destroys: Vec<usize> = Vec::new();
    let mut creates: Vec<usize> = Vec::new();
    let mut pairs: Vec<(usize, usize)> = Vec::new();
    let bn = baseline.len();
    let cn = current.len();
    let mut i: usize = 0;
    let mut j: usize = 0;
    while i < bn || j < cn
        invariant
            bn == baseline@.len(),
            cn == current@.len(),
            b == ids(entities_view(baseline@)),
            c == ids(entities_view(current@)),
            b.len() == bn,
            c.len() == cn,
            i <= bn,
            j <= cn,
            walk(b, c, 0, 0) == (
                nats(destroys@) + walk(b, c, i as nat, j as nat).0,
                nats(creates@) + walk(b, c, i as nat, j as nat).1,
                nat_pairs(pairs@) + walk(b, c, i as nat, j as nat).2,
            ),
            forall|k: int| 0 <= k < destroys@.len() ==> destroys@[k] < bn,
            forall|k: int| 0 <= k < creates@.len() ==> creates@[k] < cn,
            forall|k: int| 0 <= k < pairs@.len() ==> pairs@[k].0 < bn && pairs@[k].1 < cn,
        decreases bn + cn - i - j,
    {
        let ghost (d0, c0, p0) = (destroys@, creates@, pairs@);
        let ghost r = walk(b, c, i as nat, j as nat);
        if i < bn && j < cn {
            let bi = baseline[i].id.raw();
            let cj = current[j].id.raw();
            assert(b[i as int] == bi && c[j as int] == cj);
            if bi < cj {
                destroys.push(i);
                i = i + 1;
            } else if bi > cj {
                creates.push(j);
                j = j + 1;
            } else {
                pairs.push((i, j));
                i = i + 1;
                j = j + 1;
            }
        } else if i < bn {
            destroys.push(i);
            i = i + 1;
        } else {
            creates.push(j);
            j = j + 1;
        }
        proof {
            let r2 = walk(b, c, i as nat, j as nat);
            assert(nats(destroys@) + r2.0 =~= nats(d0) + r.0) by {
                if destroys@.len() > d0.len() {
                    assert(nats(destroys@) =~= nats(d0).push(destroys@.last() as nat));
                    assert(r.0 =~= seq![destroys@.last() as nat] + r2.0);
                } else {
                    assert(destroys@ == d0);
                }
            }
            assert(nats(creates@) + r2.1 =~= nats(c0) + r.1) by {
                if creates@.len() > c0.len() {
                    assert(nats(creates@) =~= nats(c0).push(creates@.last() as nat));
                    assert(r.1 =~= seq![creates@.last() as nat] + r2.1);
                } else {
                    assert(creates@ == c0);
                }
            }
            assert(nat_pairs(pairs@) + r2.2 =~= nat_pairs(p0) + r.2) by {
                if pairs@.len() > p0.len() {
                    let lp = pairs@.last();
                    assert(nat_pairs(pairs@) =~= nat_pairs(p0).push((lp.0 as nat, lp.1 as nat)));
                    assert(r.2 =~= seq![(lp.0 as nat, lp.1 as nat)] + r2.2);
                } else {
                    assert(pairs@ == p0);
                }
            }
        }
    }
    proof {
        let r = walk(b, c, i as nat, j as nat);
        assert(r.0 =~= Seq::<nat>::empty());
        assert(nats(destroys@) + r.0 =~= nats(destroys@));
        assert(nats(creates@) + r.1 =~= nats(creates@));
        assert(nat_pairs(pairs@) + r.2 =~= nat_pairs(pairs@));
    }
    EntityWalk { destroys, creates, pairs }
}

// ---------------------------------------------------------------------------
// Counting and estimating over the matched pairs.
/// The number of matched pairs from `k` on that have updates.
pub open spec fn updates_from(
    comps: Seq<ComponentDef>,
    b: Seq<EntityV>,
    c: Seq<EntityV>,
    pairs: Seq<(nat, nat)>,
    limits: CodecLimits,
    k: nat,
) -> Result<nat, CodecError>
    decreases pairs.len() - k,
{
    if k >= pairs.len() {
        Ok(0)
    } else {
        match has_updates(comps, b[pairs[k as int].0 as int], c[pairs[k as int].1 as int], limits) {
            Err(e) => Err(e),
            Ok(u) => match updates_from(comps, b, c, pairs, limits, k + 1) {
                Err(e) => Err(e),
                Ok(n) => Ok(n + if u {
                    1nat
                } else {
                    0nat
                }),
            },
        }
    }
}

/// Entity counts of a delta: created, updated, destroyed.
pub struct DiffCounts {
    pub creates: usize,
    pub updates: usize,
    pub destroys: usize,
}

/// The counts of a delta between two entity lists.
#[verifier::opaque]
pub open spec fn diff_counts_spec(comps: Seq<ComponentDef>, b: Seq<EntityV>, c: Seq<EntityV>, limits: CodecLimits) -> Result<
    (nat, nat, nat),
    CodecError,
> {
    let w = entity_walk(b, c);
    match updates_from(comps, b, c, w.2, limits, 0) {
        Err(e) => Err(e),
        Ok(u) => Ok((w.1.len(), u, w.0.len())),
    }
}

/// Counts created, updated and destroyed entities.
pub fn diff_counts(
    comps: &Vec<ComponentDef>,
    baseline: &[EntitySnapshot],
    current: &[EntitySnapshot],
    limits: &CodecLimits,
    walk: &EntityWalk,
) -> (r: CodecResult<DiffCounts>)
    requires
        (nats(walk.destroys@), nats(walk.creates@), nat_pairs(walk.pairs@)) == entity_walk(
            entities_view(baseline@),
            entities_view(current@),
        ),
        forall|k: int| 0 <= k < walk.pairs@.len() ==> walk.pairs@[k].0 < baseline@.len() && walk.pairs@[k].1 < current@.len(),
    ensures
        match diff_counts_spec(comps@, entities_view(baseline@), entities_view(current@), *limits) {
            Ok((cr, up, de)) => r matches Ok(d) && d.creates == cr && d.updates == up && d.destroys == de,
            Err(e) => r is Err && r->Err_0 == e,
        },
{
    proof {
        reveal(diff_counts_spec);
    }
    let ghost b = entities_view(baseline@);
    let ghost c = entities_view(current@);
    let ghost pairs = nat_pairs(walk.pairs@);
    let n = walk.pairs.len();
    let mut updates: usize = 0;
    // Errors come from the first failing pair, so check the pairs in order
    // and count afterwards.
    let mut idx: usize = 0;
    while idx < n
        invariant
            n == walk.pairs@.len(),
            pairs == nat_pairs(walk.pairs@),
            b == entities_view(baseline@),
            c == entities_view(current@),
            idx <= n,
            updates <= idx,
            pairs == entity_walk(b, c).2,
            forall|m: int| 0 <= m < walk.pairs@.len() ==> walk.pairs@[m].0 < baseline@.len() && walk.pairs@[m].1 < current@.len(),
            updates_from(comps@, b, c, pairs, *limits, 0) == match updates_from(comps@, b, c, pairs, *limits, idx as nat) {
                Err(e) => Err(e),
                Ok(rest) => Ok((rest + updates) as nat),
            },
        decreases n - idx,
    {
        proof {
            reveal(diff_counts_spec);
        }
        let (bi, ci) = walk.pairs[idx];
        assert(pairs[idx as int] == (bi as nat, ci as nat));
        assert(b[bi as int] == baseline@[bi as int]@);
        assert(c[ci as int] == current@[ci as int]@);
        let u = entity_has_updates(comps, &baseline[bi], &current[ci], limits)?;
        if u {
            updates = updates + 1;
        }
        idx = idx + 1;
    }
    proof {
        assert(nats(walk.destroys@).len() == walk.destroys@.len());
        assert(nats(walk.creates@).len() == walk.creates@.len());
    }
    Ok(DiffCounts { creates: walk.creates.len(), updates, destroys: walk.destroys.len() })
}

/// `a * b`, saturating at `usize::MAX`.
pub open spec fn sat_mul(a: usize, b: usize) -> usize {
    if a * b > usize::MAX {
        usize::MAX
    } else {
        (a * b) as usize
    }
}

/// Multiplies, saturating at `usize::MAX`.
pub fn saturating_mul(a: usize, b: usize) -> (r: usize)
    ensures
        r == sat_mul(a, b),
{
    match a.checked_mul(b) {
        Some(x) => x,
        None => usize::MAX,
    }
}

/// How the update section of a delta is laid out.
#[derive(Debug, Clone, Copy, PartialEq, Eq, Structural)]
pub enum UpdateEncoding {
    /// A component mask and a field mask per updated entity.
    Masked,
    /// One entry per changed component with packed field indices.
    Sparse,
}

/// Bits for a field index of a component with `n` fields.
pub open spec fn index_bits_spec(n: usize) -> u8 {
    required_bits_spec((n.saturating_sub(1)) as u64 as nat) as u8
}

/// Size estimates (mask bits, sparse bits) after the schema components from
/// `k` on of one matched pair.
pub open spec fn est_comps(
    comps: Seq<ComponentDef>,
    eid: u32,
    bcs: Seq<ComponentV>,
    ccs: Seq<ComponentV>,
    limits: CodecLimits,
    k: nat,
    mb: usize,
    sb: usize,
) -> Result<(usize, usize), CodecError>
    decreases comps.len() - k,
{
    if k >= comps.len() {
        Ok((mb, sb))
    } else {
        let comp = comps[k as int];
        match (find_comp(bcs, comp.id), find_comp(ccs, comp.id)) {
            (Some(bi), Some(ci)) => match pair_check(comp, bcs[bi as int].1, ccs[ci as int].1, limits) {
                Some(e) => Err(e),
                None => match mask_from(comp.id, comp.fields@, bcs[bi as int].1, ccs[ci as int].1, 0) {
                    Err(e) => Err(e),
                    Ok(m) => {
                        let changed = count_true(m);
                        if changed > 0 {
                            let n = comp.fields@.len() as usize;
                            let sb1 = sb.saturating_add(sat_mul(index_bits_spec(n) as usize, changed as usize));
                            let sb2 = sb1.saturating_add((varu32_bytes(eid).len() * 8) as usize);
                            let sb3 = sb2.saturating_add((varu32_bytes(comp.id@ as u32).len() * 8) as usize);
                            let sb4 = sb3.saturating_add((varu32_bytes(changed as u32).len() * 8) as usize);
                            est_comps(comps, eid, bcs, ccs, limits, k + 1, mb.saturating_add(n), sb4)
                        } else {
                            est_comps(comps, eid, bcs, ccs, limits, k + 1, mb, sb)
                        }
                    },
                },
            },
            (None, None) => est_comps(comps, eid, bcs, ccs, limits, k + 1, mb, sb),
            _ => Err(
                CodecError::InvalidMask {
                    kind: MaskKind::ComponentMask,
                    reason: MaskReason::ComponentPresenceMismatch { component: comp.id },
                },
            ),
        }
    }
}

/// Size estimates after the matched pairs from `k` on.
pub open spec fn est_pairs(
    comps: Seq<ComponentDef>,
    b: Seq<EntityV>,
    c: Seq<EntityV>,
    pairs: Seq<(nat, nat)>,
    limits: CodecLimits,
    k: nat,
    mb: usize,
    sb: usize,
) -> Result<(usize, usize), CodecError>
    decreases pairs.len() - k,
{
    if k >= pairs.len() {
        Ok((mb, sb))
    } else {
        let be = b[pairs[k as int].0 as int];
        let ce = c[pairs[k as int].1 as int];
        match est_comps(comps, ce.0@, be.1, ce.1, limits, 0, mb, sb) {
            Err(e) => Err(e),
            Ok((mb1, sb1)) => est_pairs(comps, b, c, pairs, limits, k + 1, mb1, sb1),
        }
    }
}

/// The update encoding chosen for a delta: sparse when its estimated index
/// and id overhead is no larger than the masks it replaces.
#[verifier::opaque]
pub open spec fn select_encoding_spec(comps: Seq<ComponentDef>, b: Seq<EntityV>, c: Seq<EntityV>, limits: CodecLimits) -> Result<
    UpdateEncoding,
    CodecError,
> {
    match est_pairs(comps, b, c, entity_walk(b, c).2, limits, 0, 0, 0) {
        Err(e) => Err(e),
        Ok((mb, sb)) => if mb == 0 {
            Ok(UpdateEncoding::Masked)
        } else if sb <= mb {
            Ok(UpdateEncoding::Sparse)
        } else {
            Ok(UpdateEncoding::Masked)
        },
    }
}

/// Field mask of a component pair computed into the scratch buffer.
pub(crate) fn pair_mask(
    component: &ComponentDef,
    baseline: &ComponentSnapshot,
    current: &ComponentSnapshot,
    scratch: &mut CodecScratch,
) -> (r: CodecResult<()>)
    requires
        baseline.fields@.len() == component.fields@.len(),
        current.fields@.len() == component.fields@.len(),
    ensures
        final(scratch).field_mask@.len() >= component.fields@.len(),
        final(scratch).component_changed == old(scratch).component_changed,
        match mask_from(component.id, component.fields@, baseline.fields@, current.fields@, 0) {
            Ok(m) => r is Ok && final(scratch).field_mask@.take(component.fields@.len() as int) == m,
            Err(e) => r == Err::<(), CodecError>(e),
        },
{
    scratch.ensure_field_capacity(component.fields.len());
    compute_field_mask_into(component, baseline, current, &mut scratch.field_mask)
}

fn est_entity(
    comps: &Vec<ComponentDef>,
    baseline: &EntitySnapshot,
    current: &EntitySnapshot,
    limits: &CodecLimits,
    scratch: &mut CodecScratch,
    mb0: usize,
    sb0: usize,
) -> (r: CodecResult<(usize, usize)>)
    ensures
        r == est_comps(comps@, current@.0@, baseline@.1, current@.1, *limits, 0, mb0, sb0),
        final(scratch).component_changed == old(scratch).component_changed,
{
    let n = comps.len();
    let mut mb = mb0;
    let mut sb = sb0;
    let mut k: usize = 0;
    let eid = current.id.raw();
    while k < n
        invariant
            n == comps@.len(),
            k <= n,
            eid == current@.0@,
            scratch.component_changed == old(scratch).component_changed,
            est_comps(comps@, eid, baseline@.1, current@.1, *limits, 0, mb0, sb0) == est_comps(
                comps@,
                eid,
                baseline@.1,
                current@.1,
                *limits,
                k as nat,
                mb,
                sb,
            ),
        decreases n - k,
    {
        let comp = &comps[k];
        let bf = find_component(baseline, comp.id);
        let cf = find_component(current, comp.id);
        match (bf, cf) {
            (Some(bi), Some(ci)) => {
                let b = &baseline.components[bi];
                let c = &current.components[ci];
                assert(baseline@.1[bi as int] == b@);
                assert(current@.1[ci as int] == c@);
                check_pair(comp, b, c, limits)?;
                pair_mask(comp, b, c, scratch)?;
                let fcount = comp.fields.len();
                let changed = count_set(&scratch.field_mask, fcount);
                if changed > 0 {
                    let ib = required_bits(fcount.saturating_sub(1) as u64);
                    sb = sb.saturating_add(saturating_mul(ib as usize, changed));
                    sb = sb.saturating_add(varu32_len(eid) * 8);
                    sb = sb.saturating_add(varu32_len(comp.id.get() as u32) * 8);
                    sb = sb.saturating_add(varu32_len(changed as u32) * 8);
                    mb = mb.saturating_add(fcount);
                }
            },
            (None, None) => {},
            _ => {
                return Err(
                    CodecError::InvalidMask {
                        kind: MaskKind::ComponentMask,
                        reason: MaskReason::ComponentPresenceMismatch { component: comp.id },
                    },
                );
            },
        }
        k = k + 1;
    }
    Ok((mb, sb))
}

/// Chooses between masked and sparse update encodings by estimated size.
pub fn select_update_encoding(
    comps: &Vec<ComponentDef>,
    baseline: &[EntitySnapshot],
    current: &[EntitySnapshot],
    limits: &CodecLimits,
    scratch: &mut CodecScratch,
    walk: &EntityWalk,
) -> (r: CodecResult<UpdateEncoding>)
    requires
        (nats(walk.destroys@), nats(walk.creates@), nat_pairs(walk.pairs@)) == entity_walk(
            entities_view(baseline@),
            entities_view(current@),
        ),
        forall|k: int| 0 <= k < walk.pairs@.len() ==> walk.pairs@[k].0 < baseline@.len() && walk.pairs@[k].1 < current@.len(),
    ensures
        r == select_encoding_spec(comps@, entities_view(baseline@), entities_view(current@), *limits),
{
    proof {
        reveal(select_encoding_spec);
    }
    let ghost b = entities_view(baseline@);
    let ghost c = entities_view(current@);
    let ghost pairs = nat_pairs(walk.pairs@);
    let n = walk.pairs.len();
    let mut mb: usize = 0;
    let mut sb: usize = 0;
    let mut idx: usize = 0;
    while idx < n
        invariant
            n == walk.pairs@.len(),
            pairs == nat_pairs(walk.pairs@),
            pairs == entity_walk(b, c).2,
            b == entities_view(baseline@),
            c == entities_view(current@),
            idx <= n,
            forall|m: int| 0 <= m < walk.pairs@.len() ==> walk.pairs@[m].0 < baseline@.len() && walk.pairs@[m].1 < current@.len(),
            est_pairs(comps@, b, c, pairs, *limits, 0, 0, 0) == est_pairs(comps@, b, c, pairs, *limits, idx as nat, mb, sb),
        decreases n - idx,
    {
        proof {
            reveal(select_encoding_spec);
        }
        let (bi, ci) = walk.pairs[idx];
        assert(pairs[idx as int] == (bi as nat, ci as nat));
        assert(b[bi as int] == baseline@[bi as int]@);
        assert(c[ci as int] == current@[ci as int]@);
        let (mb1, sb1) = est_entity(comps, &baseline[bi], &current[ci], limits, scratch, mb, sb)?;
        mb = mb1;
        sb = sb1;
        idx = idx + 1;
    }
    if mb == 0 {
        return Ok(UpdateEncoding::Masked);
    }
    if sb <= mb {
        Ok(UpdateEncoding::Sparse)
    } else {
        Ok(UpdateEncoding::Masked)
    }
}

} // verus!
