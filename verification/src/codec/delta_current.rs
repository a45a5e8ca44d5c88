//! When the target of a delta is the current snapshot itself: every field
//! counts any change, and both snapshots list each entity's components in
//! schema order.
use super::delta_law::{comp_mask, comps_ok, matched_result, merge_from, merged_comps, pairs_ok, target_from};
use super::diff::{
    any_change_from, comps_changed_from, count_true, field_change, has_updates, ids, mask_from, pair_check,
    presence_error, walk,
};
use super::error::CodecError;
use super::limits::CodecLimits;
use super::model::FieldValue;
use super::roundtrip::canon_comps;
use super::snapshot::{find_comp, find_from, ComponentV, EntityV};
use crate::schema::{ChangePolicy, ComponentDef, FieldDef};
use vstd::prelude::*;

verus! {

/// Every field of the schema counts any change as a change.
pub open spec fn always_changes(comps: Seq<ComponentDef>) -> bool {
    forall|k: int, f: int|
        0 <= k < comps.len() && 0 <= f < comps[k].fields@.len() ==> #[trigger] comps[k].fields@[f].change
            == ChangePolicy::Always
}

/// No two schema components share an id.
pub open spec fn distinct_ids(comps: Seq<ComponentDef>) -> bool {
    forall|i: int, j: int| 0 <= i < j < comps.len() ==> #[trigger] comps[i].id != #[trigger] comps[j].id
}

/// A component list in schema order: each schema component at most once,
/// in schema order, and nothing else.
pub open spec fn in_schema_order(comps: Seq<ComponentDef>, cs: Seq<ComponentV>) -> bool {
    canon_comps(comps, cs, 0) == cs
}

/// Every entity lists its components in schema order.
pub open spec fn entities_in_schema_order(comps: Seq<ComponentDef>, es: Seq<EntityV>) -> bool {
    forall|i: int| 0 <= i < es.len() ==> in_schema_order(comps, #[trigger] es[i].1)
}

/// Whether schema component `k` is in `cs`.
pub open spec fn has_comp(comps: Seq<ComponentDef>, cs: Seq<ComponentV>, k: int) -> bool {
    find_comp(cs, comps[k].id) is Some
}

/// The number of schema components before `k` that `cs` has.
pub open spec fn rank(comps: Seq<ComponentDef>, cs: Seq<ComponentV>, k: nat) -> nat
    decreases k,
{
    if k == 0 {
        0
    } else {
        rank(comps, cs, (k - 1) as nat) + if has_comp(comps, cs, k - 1) {
            1nat
        } else {
            0nat
        }
    }
}

proof fn lemma_rank_mono(comps: Seq<ComponentDef>, cs: Seq<ComponentV>, j: nat, k: nat)
    requires
        j <= k,
    ensures
        rank(comps, cs, j) <= rank(comps, cs, k),
    decreases k - j,
{
    if j < k {
        lemma_rank_mono(comps, cs, j, (k - 1) as nat);
    }
}

/// The schema-ordered list from schema index `j` on: the components `k >= j`
/// that `cs` has, at their rank past `j`; and none has the id of a schema
/// component before `j`.
proof fn lemma_canon_rank(comps: Seq<ComponentDef>, cs: Seq<ComponentV>, j: nat)
    requires
        j <= comps.len(),
        distinct_ids(comps),
    ensures
        canon_comps(comps, cs, j).len() == rank(comps, cs, comps.len()) - rank(comps, cs, j),
        forall|k: int|
            j <= k < comps.len() && has_comp(comps, cs, k) ==> #[trigger] canon_comps(comps, cs, j)[rank(comps, cs, k as nat)
                - rank(comps, cs, j)] == (comps[k].id, cs[find_comp(cs, comps[k].id)->Some_0 as int].1),
        forall|r: int, t: int|
            0 <= r < canon_comps(comps, cs, j).len() && 0 <= t < j ==> #[trigger] canon_comps(comps, cs, j)[r].0
                != #[trigger] comps[t].id,
        forall|r1: int, r2: int|
            0 <= r1 < r2 < canon_comps(comps, cs, j).len() ==> #[trigger] canon_comps(comps, cs, j)[r1].0
                != #[trigger] canon_comps(comps, cs, j)[r2].0,
    decreases comps.len() - j,
{
    let cj = canon_comps(comps, cs, j);
    if j < comps.len() {
        lemma_canon_rank(comps, cs, j + 1);
        let rest = canon_comps(comps, cs, j + 1);
        lemma_rank_mono(comps, cs, j + 1, comps.len());
        assert forall|k: int| j + 1 <= k < comps.len() implies rank(comps, cs, (j + 1) as nat) <= #[trigger] rank(comps, cs, k as nat) by {
            lemma_rank_mono(comps, cs, j + 1, k as nat);
        }
        if has_comp(comps, cs, j as int) {
            let h = (comps[j as int].id, cs[find_comp(cs, comps[j as int].id)->Some_0 as int].1);
            assert(cj == seq![h] + rest);
            assert forall|k: int| j <= k < comps.len() && has_comp(comps, cs, k) implies #[trigger] cj[rank(comps, cs, k as nat)
                - rank(comps, cs, j)] == (comps[k].id, cs[find_comp(cs, comps[k].id)->Some_0 as int].1) by {
                assert(rank(comps, cs, (j + 1) as nat) == rank(comps, cs, j) + 1);
                if k > j {
                    assert(rank(comps, cs, (j + 1) as nat) <= rank(comps, cs, k as nat));
                    lemma_rank_mono(comps, cs, (k + 1) as nat, comps.len());
                    assert(rank(comps, cs, (k + 1) as nat) == rank(comps, cs, k as nat) + 1);
                    assert(rest[rank(comps, cs, k as nat) - rank(comps, cs, (j + 1) as nat)] == (
                        comps[k].id,
                        cs[find_comp(cs, comps[k].id)->Some_0 as int].1,
                    ));
                    assert(cj[rank(comps, cs, k as nat) - rank(comps, cs, j)] == rest[rank(comps, cs, k as nat) - rank(
                        comps,
                        cs,
                        (j + 1) as nat,
                    )]);
                }
            }
            assert forall|r: int, t: int| 0 <= r < cj.len() && 0 <= t < j implies #[trigger] cj[r].0 != #[trigger] comps[t].id by {
                if r > 0 {
                    assert(cj[r] == rest[r - 1]);
                    assert(rest[r - 1].0 != comps[t].id);
                } else {
                    assert(comps[t].id != comps[j as int].id);
                }
            }
            assert forall|r1: int, r2: int| 0 <= r1 < r2 < cj.len() implies #[trigger] cj[r1].0 != #[trigger] cj[r2].0 by {
                assert(cj[r2] == rest[r2 - 1]);
                if r1 > 0 {
                    assert(cj[r1] == rest[r1 - 1]);
                } else {
                    assert(rest[r2 - 1].0 != comps[j as int].id);
                }
            }
        } else {
            assert(cj == rest);
            assert forall|k: int| j <= k < comps.len() && has_comp(comps, cs, k) implies #[trigger] cj[rank(comps, cs, k as nat)
                - rank(comps, cs, j)] == (comps[k].id, cs[find_comp(cs, comps[k].id)->Some_0 as int].1) by {
                if k > j {
                    assert(rank(comps, cs, (j + 1) as nat) <= rank(comps, cs, k as nat));
                }
            }
            assert forall|r: int, t: int| 0 <= r < cj.len() && 0 <= t < j implies #[trigger] cj[r].0 != #[trigger] comps[t].id by {
                assert(rest[r].0 != comps[t].id);
            }
        }
    }
}

proof fn lemma_find_distinct(cs: Seq<ComponentV>, q: int, i: nat)
    requires
        0 <= i <= q < cs.len(),
        forall|r1: int, r2: int| 0 <= r1 < r2 < cs.len() ==> #[trigger] cs[r1].0 != #[trigger] cs[r2].0,
    ensures
        find_from(cs, cs[q].0, i) == Some(q as nat),
    decreases q - i,
{
    if i < q {
        assert(cs[i as int].0 != cs[q].0);
        lemma_find_distinct(cs, q, i + 1);
    }
}

/// In a list in schema order, schema component `k` sits at its rank.
proof fn lemma_canon_find(comps: Seq<ComponentDef>, cs: Seq<ComponentV>)
    requires
        distinct_ids(comps),
        in_schema_order(comps, cs),
    ensures
        cs.len() == rank(comps, cs, comps.len()),
        forall|k: int| 0 <= k < comps.len() && has_comp(comps, cs, k) ==> #[trigger] find_comp(cs, comps[k].id) == Some(
            rank(comps, cs, k as nat),
        ) && rank(comps, cs, k as nat) < cs.len(),
{
    lemma_canon_rank(comps, cs, 0);
    assert forall|k: int| 0 <= k < comps.len() && has_comp(comps, cs, k) implies #[trigger] find_comp(cs, comps[k].id) == Some(
        rank(comps, cs, k as nat),
    ) && rank(comps, cs, k as nat) < cs.len() by {
        let q = rank(comps, cs, k as nat);
        lemma_rank_mono(comps, cs, (k + 1) as nat, comps.len());
        assert(rank(comps, cs, (k + 1) as nat) == q + 1);
        assert(canon_comps(comps, cs, 0)[rank(comps, cs, k as nat) - rank(comps, cs, 0)] == (
            comps[k].id,
            cs[find_comp(cs, comps[k].id)->Some_0 as int].1,
        ));
        assert(cs[q as int].0 == comps[k].id);
        lemma_find_distinct(cs, q as int, 0);
    }
}

/// Lists with the same schema components have the same ranks.
proof fn lemma_rank_same(comps: Seq<ComponentDef>, xs: Seq<ComponentV>, ys: Seq<ComponentV>, k: nat)
    requires
        k <= comps.len(),
        forall|t: int| 0 <= t < comps.len() ==> (has_comp(comps, xs, t) <==> #[trigger] has_comp(comps, ys, t)),
    ensures
        rank(comps, xs, k) == rank(comps, ys, k),
    decreases k,
{
    if k > 0 {
        lemma_rank_same(comps, xs, ys, (k - 1) as nat);
        assert(has_comp(comps, xs, k - 1) <==> has_comp(comps, ys, k - 1));
    }
}

/// Lists in schema order with the same schema components have the same ids
/// at the same places.
proof fn lemma_canon_same_ids(comps: Seq<ComponentDef>, xs: Seq<ComponentV>, ys: Seq<ComponentV>, j: nat)
    requires
        j <= comps.len(),
        forall|t: int| 0 <= t < comps.len() ==> (has_comp(comps, xs, t) <==> #[trigger] has_comp(comps, ys, t)),
    ensures
        canon_comps(comps, xs, j).len() == canon_comps(comps, ys, j).len(),
        forall|r: int| 0 <= r < canon_comps(comps, xs, j).len() ==> #[trigger] canon_comps(comps, xs, j)[r].0 == canon_comps(comps, ys, j)[r].0,
    decreases comps.len() - j,
{
    if j < comps.len() {
        lemma_canon_same_ids(comps, xs, ys, j + 1);
        assert(has_comp(comps, xs, j as int) <==> has_comp(comps, ys, j as int));
        let cx = canon_comps(comps, xs, j);
        let cy = canon_comps(comps, ys, j);
        let rx = canon_comps(comps, xs, j + 1);
        let ry = canon_comps(comps, ys, j + 1);
        if has_comp(comps, xs, j as int) {
            assert forall|r: int| 0 <= r < cx.len() implies #[trigger] cx[r].0 == cy[r].0 by {
                if r > 0 {
                    assert(cx[r] == rx[r - 1]);
                    assert(cy[r] == ry[r - 1]);
                }
            }
        }
    }
}

/// No presence error from `k` on means the same schema components from `k`
/// on.
proof fn lemma_presence_same(comps: Seq<ComponentDef>, xs: Seq<ComponentV>, ys: Seq<ComponentV>, k: nat)
    requires
        presence_error(comps, xs, ys, k) is None,
    ensures
        forall|t: int| k <= t < comps.len() ==> (has_comp(comps, xs, t) <==> #[trigger] has_comp(comps, ys, t)),
    decreases comps.len() - k,
{
    if k < comps.len() {
        lemma_presence_same(comps, xs, ys, k + 1);
    }
}

/// Under the always policy, a field whose change bit is clear has the same
/// value on both sides.
proof fn lemma_mask_always(
    cid: crate::schema::ComponentId,
    fs: Seq<FieldDef>,
    bv: Seq<FieldValue>,
    cv: Seq<FieldValue>,
    j: nat,
)
    requires
        j <= fs.len(),
        bv.len() == fs.len(),
        cv.len() == fs.len(),
        forall|f: int| 0 <= f < fs.len() ==> (#[trigger] fs[f]).change == ChangePolicy::Always,
        mask_from(cid, fs, bv, cv, j) is Ok,
    ensures
        mask_from(cid, fs, bv, cv, j)->Ok_0.len() == fs.len() - j,
        forall|t: int| j <= t < fs.len() && !mask_from(cid, fs, bv, cv, j)->Ok_0[t - j] ==> #[trigger] bv[t] == cv[t],
    decreases fs.len() - j,
{
    if j < fs.len() {
        lemma_mask_always(cid, fs, bv, cv, j + 1);
        let m = mask_from(cid, fs, bv, cv, j)->Ok_0;
        let rest = mask_from(cid, fs, bv, cv, j + 1)->Ok_0;
        assert(fs[j as int].change == ChangePolicy::Always);
        assert forall|t: int| j <= t < fs.len() && !m[t - j] implies #[trigger] bv[t] == cv[t] by {
            if t > j {
                assert(m[t - j] == rest[t - j - 1]);
            }
        }
    }
}

/// No changed field means an all-clear change mask.
proof fn lemma_any_false(cid: crate::schema::ComponentId, fs: Seq<FieldDef>, bv: Seq<FieldValue>, cv: Seq<FieldValue>, j: nat)
    requires
        j <= fs.len(),
        any_change_from(cid, fs, bv, cv, j) == Ok::<bool, CodecError>(false),
    ensures
        mask_from(cid, fs, bv, cv, j) is Ok,
        count_true(mask_from(cid, fs, bv, cv, j)->Ok_0) == 0,
    decreases fs.len() - j,
{
    if j < fs.len() {
        lemma_any_false(cid, fs, bv, cv, j + 1);
        let rest = mask_from(cid, fs, bv, cv, j + 1)->Ok_0;
        super::sparse_wire::lemma_count_true_cons(false, rest);
    } else {
        assert(count_true(Seq::<bool>::empty()) == 0);
    }
}

/// With no changed component, the checks pass and merging changes nothing.
proof fn lemma_no_change(
    comps: Seq<ComponentDef>,
    bcs: Seq<ComponentV>,
    ccs: Seq<ComponentV>,
    cs: Seq<ComponentV>,
    limits: CodecLimits,
    k: nat,
)
    requires
        k <= comps.len(),
        comps_changed_from(comps, bcs, ccs, limits, k) == Ok::<bool, CodecError>(false),
        presence_error(comps, bcs, ccs, k) is None,
    ensures
        comps_ok(comps, bcs, ccs, limits, k),
        merged_comps(comps, bcs, ccs, cs, k) == cs,
    decreases comps.len() - k,
{
    if k < comps.len() {
        lemma_no_change(comps, bcs, ccs, cs, limits, k + 1);
        let c = comps[k as int];
        match (find_comp(bcs, c.id), find_comp(ccs, c.id)) {
            (Some(bi), Some(ci)) => {
                lemma_any_false(c.id, c.fields@, bcs[bi as int].1, ccs[ci as int].1, 0);
            },
            _ => {},
        }
    }
}

/// Merging a matched entity's changes, schema components from `k` on,
/// into `cs` gives the current components, when the components before rank
/// `k` already hold their current values and the others their baseline
/// values.
#[verifier::rlimit(30)]
proof fn lemma_merge_current(
    comps: Seq<ComponentDef>,
    bcs: Seq<ComponentV>,
    ccs: Seq<ComponentV>,
    cs: Seq<ComponentV>,
    limits: CodecLimits,
    k: nat,
)
    requires
        k <= comps.len(),
        distinct_ids(comps),
        always_changes(comps),
        in_schema_order(comps, bcs),
        in_schema_order(comps, ccs),
        presence_error(comps, bcs, ccs, 0) is None,
        comps_ok(comps, bcs, ccs, limits, k),
        cs.len() == bcs.len(),
        forall|p: int| 0 <= p < cs.len() ==> (#[trigger] cs[p]).0 == bcs[p].0,
        forall|p: int| 0 <= p < rank(comps, bcs, k) ==> (#[trigger] cs[p]).1 == ccs[p].1,
        forall|p: int| rank(comps, bcs, k) <= p < cs.len() ==> (#[trigger] cs[p]).1 == bcs[p].1,
    ensures
        merged_comps(comps, bcs, ccs, cs, k) == ccs,
    decreases comps.len() - k,
{
    lemma_presence_same(comps, bcs, ccs, 0);
    lemma_canon_find(comps, bcs);
    lemma_canon_find(comps, ccs);
    lemma_rank_same(comps, bcs, ccs, comps.len());
    if k < comps.len() {
        let c = comps[k as int];
        lemma_rank_same(comps, bcs, ccs, k);
        assert(has_comp(comps, bcs, k as int) <==> has_comp(comps, ccs, k as int));
        lemma_rank_mono(comps, bcs, k + 1, comps.len());
        if has_comp(comps, bcs, k as int) {
            let q = rank(comps, bcs, k);
            assert(find_comp(bcs, c.id) == Some(q));
            assert(find_comp(ccs, c.id) == Some(q));
            assert(rank(comps, bcs, k + 1) == q + 1);
            let bv = bcs[q as int].1;
            let cv = ccs[q as int].1;
            let m = comp_mask(c, bv, cv);
            assert forall|f: int| 0 <= f < c.fields@.len() implies (#[trigger] c.fields@[f]).change == ChangePolicy::Always by {
                assert(comps[k as int].fields@[f].change == ChangePolicy::Always);
            }
            lemma_mask_always(c.id, c.fields@, bv, cv, 0);
            if count_true(m) > 0 {
                let merged = merge_from(cs[q as int].1, cv, m, 0);
                assert(merged =~= cv) by {
                    assert forall|t: int| 0 <= t < cv.len() implies #[trigger] merged[t] == cv[t] by {
                        if !m[t] {
                            assert(bv[t] == cv[t]);
                        }
                    }
                }
                let cs2 = cs.update(q as int, (cs[q as int].0, merged));
                lemma_merge_current(comps, bcs, ccs, cs2, limits, k + 1);
            } else {
                super::delta_wire::lemma_count_true_contains(m);
                assert(bv =~= cv) by {
                    assert forall|t: int| 0 <= t < cv.len() implies #[trigger] bv[t] == cv[t] by {
                        if m[t] {
                            assert(m.contains(true));
                        }
                    }
                }
                lemma_merge_current(comps, bcs, ccs, cs, limits, k + 1);
            }
        } else {
            assert(find_comp(bcs, c.id) is None);
            assert(rank(comps, bcs, k + 1) == rank(comps, bcs, k));
            lemma_merge_current(comps, bcs, ccs, cs, limits, k + 1);
        }
    } else {
        lemma_canon_same_ids(comps, bcs, ccs, 0);
        assert(cs =~= ccs) by {
            assert forall|p: int| 0 <= p < cs.len() implies #[trigger] cs[p] == ccs[p] by {
                assert(canon_comps(comps, bcs, 0)[p].0 == canon_comps(comps, ccs, 0)[p].0);
            }
        }
    }
}

/// A matched entity after the delta is its current value.
proof fn lemma_matched_current(comps: Seq<ComponentDef>, be: EntityV, ce: EntityV, limits: CodecLimits)
    requires
        distinct_ids(comps),
        always_changes(comps),
        in_schema_order(comps, be.1),
        in_schema_order(comps, ce.1),
        be.0 == ce.0,
        has_updates(comps, be, ce, limits) is Ok,
        has_updates(comps, be, ce, limits) == Ok::<bool, CodecError>(true) ==> comps_ok(comps, be.1, ce.1, limits, 0),
    ensures
        matched_result(comps, be, ce, limits) == ce,
{
    lemma_canon_find(comps, be.1);
    if has_updates(comps, be, ce, limits) == Ok::<bool, CodecError>(true) {
        lemma_merge_current(comps, be.1, ce.1, be.1, limits, 0);
    } else {
        let h = has_updates(comps, be, ce, limits);
        assert(h->Ok_0 == false);
        assert(h == Ok::<bool, CodecError>(false));
        assert(presence_error(comps, be.1, ce.1, 0) is None);
        assert(comps_changed_from(comps, be.1, ce.1, limits, 0) == Ok::<bool, CodecError>(false));
        lemma_no_change(comps, be.1, ce.1, be.1, limits, 0);
        lemma_merge_current(comps, be.1, ce.1, be.1, limits, 0);
    }
}

/// From `(i, j)` of the walk on, the delta's target is the rest of the
/// current entities.
pub proof fn lemma_target_current(comps: Seq<ComponentDef>, b: Seq<EntityV>, c: Seq<EntityV>, limits: CodecLimits, i: nat, j: nat)
    requires
        i <= b.len(),
        j <= c.len(),
        distinct_ids(comps),
        always_changes(comps),
        entities_in_schema_order(comps, b),
        entities_in_schema_order(comps, c),
        pairs_ok(comps, b, c, walk(ids(b), ids(c), i, j).2, limits),
    ensures
        target_from(comps, b, c, limits, i, j) == c.subrange(j as int, c.len() as int),
    decreases (b.len() - i) + (c.len() - j),
{
    let rest_c = c.subrange(j as int, c.len() as int);
    if i < b.len() && j < c.len() {
        assert(ids(b)[i as int] == b[i as int].0@);
        assert(ids(c)[j as int] == c[j as int].0@);
        if b[i as int].0@ < c[j as int].0@ {
            lemma_target_current(comps, b, c, limits, i + 1, j);
        } else if b[i as int].0@ > c[j as int].0@ {
            lemma_target_current(comps, b, c, limits, i, j + 1);
            assert(in_schema_order(comps, c[j as int].1));
            assert(rest_c =~= seq![c[j as int]] + c.subrange((j + 1) as int, c.len() as int));
        } else {
            let tail = walk(ids(b), ids(c), i + 1, j + 1).2;
            let ps = walk(ids(b), ids(c), i, j).2;
            assert(ps == seq![(i, j)] + tail);
            assert(pairs_ok(comps, b, c, tail, limits)) by {
                assert forall|t: int| 0 <= t < tail.len() implies #[trigger] tail[t] == ps[t + 1] by {}
            }
            assert(ps[0] == (i, j));
            super::types::lemma_entity_id_view(b[i as int].0, c[j as int].0);
            assert(in_schema_order(comps, b[i as int].1));
            assert(in_schema_order(comps, c[j as int].1));
            lemma_matched_current(comps, b[i as int], c[j as int], limits);
            lemma_target_current(comps, b, c, limits, i + 1, j + 1);
            assert(rest_c =~= seq![c[j as int]] + c.subrange((j + 1) as int, c.len() as int));
        }
    } else if i < b.len() {
        lemma_target_current(comps, b, c, limits, i + 1, j);
    } else if j < c.len() {
        lemma_target_current(comps, b, c, limits, i, j + 1);
        assert(in_schema_order(comps, c[j as int].1));
        assert(rest_c =~= seq![c[j as int]] + c.subrange((j + 1) as int, c.len() as int));
    } else {
        assert(rest_c =~= Seq::<EntityV>::empty());
    }
}

} // verus!
