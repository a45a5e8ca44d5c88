//! What applying a delta does: the destroys, creates and updates of a delta
//! between a baseline and a current snapshot, applied to the baseline, give
//! the current entities, with changed fields at their current value and
//! fields under their change threshold at the baseline value.
use super::apply::{changes_result, create_walk, destroy_walk, entity_from, ids_sorted, set_fields, update_comps, update_entities};
use super::delta_dec::{UpdCompV, UpdEntV};
use super::diff::{
    comps_changed_from, count_true, has_updates, ids, mask_from, order_error, pair_check, presence_error, walk,
};
use super::error::CodecError;
use super::limits::CodecLimits;
use super::model::FieldValue;
use super::roundtrip::canon_comps;
use super::snapshot::{find_comp, find_from, ComponentV, EntityV};
use super::types::EntityId;
use crate::schema::{ComponentDef, ComponentId, FieldDef};
use vstd::prelude::*;

verus! {

/// Facts about the walk over two id lists from `(i, j)`: every index lies in
/// range and at or after its start, matched ids are equal, and every index
/// of each list shows up once.
pub proof fn lemma_walk_facts(b: Seq<u32>, c: Seq<u32>, i: nat, j: nat)
    requires
        i <= b.len(),
        j <= c.len(),
    ensures
        ({
            let r = walk(b, c, i, j);
            &&& forall|t: int| 0 <= t < r.0.len() ==> i <= #[trigger] r.0[t] < b.len()
            &&& forall|t: int| 0 <= t < r.1.len() ==> j <= #[trigger] r.1[t] < c.len()
            &&& forall|t: int|
                0 <= t < r.2.len() ==> i <= (#[trigger] r.2[t]).0 < b.len() && j <= r.2[t].1 < c.len() && b[r.2[t].0 as int]
                    == c[r.2[t].1 as int]
            &&& r.0.len() + r.2.len() == b.len() - i
            &&& r.1.len() + r.2.len() == c.len() - j
            &&& forall|t: int, u: int| 0 <= t < u < r.1.len() ==> r.1[t] < r.1[u]
            &&& forall|t: int, u: int| 0 <= t < u < r.0.len() ==> r.0[t] < r.0[u]
            &&& forall|t: int, u: int| 0 <= t < u < r.2.len() ==> r.2[t].0 < r.2[u].0 && r.2[t].1 < r.2[u].1
        }),
    decreases (b.len() - i) + (c.len() - j),
{
    if i < b.len() && j < c.len() {
        if b[i as int] < c[j as int] {
            lemma_walk_facts(b, c, i + 1, j);
        } else if b[i as int] > c[j as int] {
            lemma_walk_facts(b, c, i, j + 1);
        } else {
            lemma_walk_facts(b, c, i + 1, j + 1);
        }
    } else if i < b.len() {
        lemma_walk_facts(b, c, i + 1, j);
    } else if j < c.len() {
        lemma_walk_facts(b, c, i, j + 1);
    }
}

/// The entities kept from the baseline: those matched in the walk from `(i, j)`.
pub open spec fn kept_from(b: Seq<EntityV>, c: Seq<EntityV>, i: nat, j: nat) -> Seq<EntityV> {
    walk(ids(b), ids(c), i, j).2.map_values(|p: (nat, nat)| b[p.0 as int])
}

/// The ids destroyed by the walk from `(i, j)`.
pub open spec fn destroyed_from(b: Seq<EntityV>, c: Seq<EntityV>, i: nat, j: nat) -> Seq<EntityId> {
    walk(ids(b), ids(c), i, j).0.map_values(|x: nat| b[x as int].0)
}

proof fn lemma_rest_shift(b: Seq<EntityV>, c: Seq<EntityV>, ds: Seq<EntityId>, i: nat, j: nat, jd: nat)
    requires
        i < b.len(),
        j <= c.len(),
        jd < ds.len(),
        walk(ids(b), ids(c), i, j).0 == seq![i] + walk(ids(b), ids(c), i + 1, j).0,
        ds.subrange(jd as int, ds.len() as int) == destroyed_from(b, c, i, j),
    ensures
        ds.subrange((jd + 1) as int, ds.len() as int) == destroyed_from(b, c, i + 1, j),
        ds[jd as int] == b[i as int].0,
{
    let rest = ds.subrange(jd as int, ds.len() as int);
    let tail = ds.subrange((jd + 1) as int, ds.len() as int);
    let d2 = destroyed_from(b, c, i + 1, j);
    let w0 = walk(ids(b), ids(c), i, j).0;
    let w1 = walk(ids(b), ids(c), i + 1, j).0;
    assert(rest[0] == ds[jd as int]);
    assert(w0 == seq![i] + w1);
    assert(w0.len() == w1.len() + 1);
    assert(rest.len() == w0.len());
    assert(tail.len() == w1.len());
    assert(d2.len() == w1.len());
    assert(w0[0] == i);
    assert forall|t: int| 0 <= t < tail.len() implies #[trigger] tail[t] == d2[t] by {
        assert(rest[t + 1] == ds[jd + 1 + t]);
        assert(w0[t + 1] == w1[t]);
        assert(destroyed_from(b, c, i, j)[t + 1] == b[w0[t + 1] as int].0);
    }
    assert(tail =~= d2);
}

proof fn lemma_destroy_follow(b: Seq<EntityV>, c: Seq<EntityV>, ds: Seq<EntityId>, i: nat, j: nat, jd: nat, acc: Seq<EntityV>)
    requires
        ids_sorted(b),
        ids_sorted(c),
        i <= b.len(),
        j <= c.len(),
        jd <= ds.len(),
        ds.subrange(jd as int, ds.len() as int) == destroyed_from(b, c, i, j),
    ensures
        destroy_walk(b, ds, i, jd, acc) == Ok::<Seq<EntityV>, CodecError>(acc + kept_from(b, c, i, j)),
    decreases (b.len() - i) + (c.len() - j),
{
    let bi = ids(b);
    let ci = ids(c);
    let r = walk(bi, ci, i, j);
    lemma_walk_facts(bi, ci, i, j);
    let rest = ds.subrange(jd as int, ds.len() as int);
    if i < b.len() && j < c.len() {
        assert(bi[i as int] == b[i as int].0@ && ci[j as int] == c[j as int].0@);
        if bi[i as int] < ci[j as int] {
            let r2 = walk(bi, ci, i + 1, j);
            assert(r.0 == seq![i] + r2.0);
            assert(destroyed_from(b, c, i, j).len() >= 1);
            lemma_rest_shift(b, c, ds, i, j, jd);
            lemma_destroy_follow(b, c, ds, i + 1, j, jd + 1, acc);
            assert(kept_from(b, c, i, j) =~= kept_from(b, c, i + 1, j));
        } else if bi[i as int] > ci[j as int] {
            lemma_destroy_follow(b, c, ds, i, j + 1, jd, acc);
            assert(kept_from(b, c, i, j) =~= kept_from(b, c, i, j + 1));
            assert(destroyed_from(b, c, i, j) =~= destroyed_from(b, c, i, j + 1));
        } else {
            let r2 = walk(bi, ci, i + 1, j + 1);
            lemma_walk_facts(bi, ci, i + 1, j + 1);
            assert(r.0 == r2.0);
            assert(r.2 == seq![(i, j)] + r2.2);
            assert(destroyed_from(b, c, i, j) =~= destroyed_from(b, c, i + 1, j + 1));
            if jd < ds.len() {
                assert(rest[0] == ds[jd as int]);
                assert(rest[0] == b[r2.0[0] as int].0);
                assert(b[i as int].0@ < b[r2.0[0] as int].0@);
            }
            lemma_destroy_follow(b, c, ds, i + 1, j + 1, jd, acc.push(b[i as int]));
            assert(acc.push(b[i as int]) + kept_from(b, c, i + 1, j + 1) =~= acc + kept_from(b, c, i, j));
        }
    } else if i < b.len() {
        let r2 = walk(bi, ci, i + 1, j);
        assert(r.0 == seq![i] + r2.0);
        assert(destroyed_from(b, c, i, j).len() >= 1);
        lemma_rest_shift(b, c, ds, i, j, jd);
        lemma_destroy_follow(b, c, ds, i + 1, j, jd + 1, acc);
        assert(kept_from(b, c, i, j) =~= kept_from(b, c, i + 1, j));
    } else if j < c.len() {
        lemma_destroy_follow(b, c, ds, i, j + 1, jd, acc);
        assert(kept_from(b, c, i, j) =~= kept_from(b, c, i, j + 1));
        assert(destroyed_from(b, c, i, j) =~= destroyed_from(b, c, i, j + 1));
    } else {
        assert(kept_from(b, c, i, j) =~= Seq::<EntityV>::empty());
        assert(rest.len() == 0);
        assert(acc + Seq::<EntityV>::empty() =~= acc);
    }
}

/// `s` from `k` on is `x` then `y`.
proof fn lemma_sub_shift<T>(s: Seq<T>, k: nat, x: T, y: Seq<T>)
    requires
        k <= s.len(),
        s.subrange(k as int, s.len() as int) == seq![x] + y,
    ensures
        k < s.len(),
        s[k as int] == x,
        s.subrange((k + 1) as int, s.len() as int) == y,
{
    let r = s.subrange(k as int, s.len() as int);
    assert(r.len() == 1 + y.len());
    assert(r[0] == x);
    assert(s.subrange((k + 1) as int, s.len() as int) =~= y) by {
        assert forall|t: int| 0 <= t < y.len() implies #[trigger] s.subrange((k + 1) as int, s.len() as int)[t] == y[t] by {
            assert(r[t + 1] == y[t]);
        }
    }
}

/// The created entities of the walk from `(i, j)`, as decoding yields them.
pub open spec fn created_from(comps: Seq<ComponentDef>, b: Seq<EntityV>, c: Seq<EntityV>, i: nat, j: nat) -> Seq<EntityV> {
    walk(ids(b), ids(c), i, j).1.map_values(|y: nat| (c[y as int].0, canon_comps(comps, c[y as int].1, 0)))
}

/// The baseline after destroys and creates, from `(i, j)` of the walk: the
/// current ids in order, matched ones with their baseline components and
/// created ones with their current components in schema order.
pub open spec fn merged_from(comps: Seq<ComponentDef>, b: Seq<EntityV>, c: Seq<EntityV>, i: nat, j: nat) -> Seq<EntityV>
    decreases (if i < b.len() {
        b.len() - i
    } else {
        0
    }) + (if j < c.len() {
        c.len() - j
    } else {
        0
    }),
{
    if i < b.len() && j < c.len() {
        if b[i as int].0@ < c[j as int].0@ {
            merged_from(comps, b, c, i + 1, j)
        } else if b[i as int].0@ > c[j as int].0@ {
            seq![(c[j as int].0, canon_comps(comps, c[j as int].1, 0))] + merged_from(comps, b, c, i, j + 1)
        } else {
            seq![b[i as int]] + merged_from(comps, b, c, i + 1, j + 1)
        }
    } else if i < b.len() {
        merged_from(comps, b, c, i + 1, j)
    } else if j < c.len() {
        seq![(c[j as int].0, canon_comps(comps, c[j as int].1, 0))] + merged_from(comps, b, c, i, j + 1)
    } else {
        Seq::empty()
    }
}

proof fn lemma_create_follow(
    comps: Seq<ComponentDef>,
    b: Seq<EntityV>,
    c: Seq<EntityV>,
    kept: Seq<EntityV>,
    cs: Seq<EntityV>,
    i: nat,
    j: nat,
    ik: nat,
    jc: nat,
    acc: Seq<EntityV>,
)
    requires
        ids_sorted(b),
        ids_sorted(c),
        i <= b.len(),
        j <= c.len(),
        ik <= kept.len(),
        jc <= cs.len(),
        kept.subrange(ik as int, kept.len() as int) == kept_from(b, c, i, j),
        cs.subrange(jc as int, cs.len() as int) == created_from(comps, b, c, i, j),
    ensures
        create_walk(kept, cs, ik, jc, acc) == Ok::<Seq<EntityV>, CodecError>(acc + merged_from(comps, b, c, i, j)),
    decreases (b.len() - i) + (c.len() - j),
{
    let bi = ids(b);
    let ci = ids(c);
    let r = walk(bi, ci, i, j);
    lemma_walk_facts(bi, ci, i, j);
    if i < b.len() && j < c.len() {
        assert(bi[i as int] == b[i as int].0@ && ci[j as int] == c[j as int].0@);
        if bi[i as int] < ci[j as int] {
            assert(kept_from(b, c, i, j) =~= kept_from(b, c, i + 1, j));
            assert(created_from(comps, b, c, i, j) =~= created_from(comps, b, c, i + 1, j));
            lemma_create_follow(comps, b, c, kept, cs, i + 1, j, ik, jc, acc);
        } else if bi[i as int] > ci[j as int] {
            let r2 = walk(bi, ci, i, j + 1);
            lemma_walk_facts(bi, ci, i, j + 1);
            let e = (c[j as int].0, canon_comps(comps, c[j as int].1, 0));
            assert(kept_from(b, c, i, j) =~= kept_from(b, c, i, j + 1));
            assert(created_from(comps, b, c, i, j) =~= seq![e] + created_from(comps, b, c, i, j + 1));
            lemma_sub_shift(cs, jc, e, created_from(comps, b, c, i, j + 1));
            if ik < kept.len() {
                assert(kept[ik as int] == kept.subrange(ik as int, kept.len() as int)[0]);
                let p = r2.2[0];
                assert(kept[ik as int] == b[p.0 as int]);
                assert(bi[p.0 as int] == ci[p.1 as int]);
                assert(c[j as int].0@ < c[p.1 as int].0@);
            }
            lemma_create_follow(comps, b, c, kept, cs, i, j + 1, ik, jc + 1, acc.push(e));
            assert(acc.push(e) + merged_from(comps, b, c, i, j + 1) =~= acc + merged_from(comps, b, c, i, j));
        } else {
            let r2 = walk(bi, ci, i + 1, j + 1);
            lemma_walk_facts(bi, ci, i + 1, j + 1);
            assert(r.2 == seq![(i, j)] + r2.2);
            assert(kept_from(b, c, i, j) =~= seq![b[i as int]] + kept_from(b, c, i + 1, j + 1));
            assert(created_from(comps, b, c, i, j) =~= created_from(comps, b, c, i + 1, j + 1));
            lemma_sub_shift(kept, ik, b[i as int], kept_from(b, c, i + 1, j + 1));
            if jc < cs.len() {
                assert(cs[jc as int] == cs.subrange(jc as int, cs.len() as int)[0]);
                let y = r2.1[0];
                assert(cs[jc as int].0 == c[y as int].0);
                assert(c[j as int].0@ < c[y as int].0@);
            }
            lemma_create_follow(comps, b, c, kept, cs, i + 1, j + 1, ik + 1, jc, acc.push(b[i as int]));
            assert(acc.push(b[i as int]) + merged_from(comps, b, c, i + 1, j + 1) =~= acc + merged_from(comps, b, c, i, j));
        }
    } else if i < b.len() {
        assert(kept_from(b, c, i, j) =~= kept_from(b, c, i + 1, j));
        assert(created_from(comps, b, c, i, j) =~= created_from(comps, b, c, i + 1, j));
        lemma_create_follow(comps, b, c, kept, cs, i + 1, j, ik, jc, acc);
    } else if j < c.len() {
        let e = (c[j as int].0, canon_comps(comps, c[j as int].1, 0));
        assert(kept_from(b, c, i, j) =~= kept_from(b, c, i, j + 1));
        assert(created_from(comps, b, c, i, j) =~= seq![e] + created_from(comps, b, c, i, j + 1));
        lemma_sub_shift(cs, jc, e, created_from(comps, b, c, i, j + 1));
        assert(kept_from(b, c, i, j).len() == 0);
        lemma_create_follow(comps, b, c, kept, cs, i, j + 1, ik, jc + 1, acc.push(e));
        assert(acc.push(e) + merged_from(comps, b, c, i, j + 1) =~= acc + merged_from(comps, b, c, i, j));
    } else {
        assert(kept_from(b, c, i, j).len() == 0);
        assert(created_from(comps, b, c, i, j).len() == 0);
        assert(acc + Seq::<EntityV>::empty() =~= acc);
    }
}

// ---------------------------------------------------------------------------
// Field and component updates.
/// Index and current value of each field from `i` on whose change bit is set.
pub open spec fn changed(cv: Seq<FieldValue>, m: Seq<bool>, i: nat) -> Seq<(usize, FieldValue)>
    decreases m.len() - i,
{
    if i >= m.len() {
        Seq::empty()
    } else if m[i as int] {
        seq![(i as usize, cv[i as int])] + changed(cv, m, i + 1)
    } else {
        changed(cv, m, i + 1)
    }
}

/// Fields after taking the current value of every changed field from `i` on.
pub open spec fn merge_from(fs: Seq<FieldValue>, cv: Seq<FieldValue>, m: Seq<bool>, i: nat) -> Seq<FieldValue> {
    Seq::new(fs.len(), |t: int| if t >= i && t < m.len() && m[t] { cv[t] } else { fs[t] })
}

proof fn lemma_set_fields_shift(fs: Seq<FieldValue>, x: (usize, FieldValue), l: Seq<(usize, FieldValue)>, id: ComponentId, k: nat)
    ensures
        set_fields(fs, seq![x] + l, id, k + 1) == set_fields(fs, l, id, k),
    decreases l.len() - k,
{
    let l2 = seq![x] + l;
    if k < l.len() {
        assert(l2[(k + 1) as int] == l[k as int]);
        if l[k as int].0 < fs.len() {
            lemma_set_fields_shift(fs.update(l[k as int].0 as int, l[k as int].1), x, l, id, k + 1);
        }
    }
}

/// Writing the changed values sets exactly the changed fields.
proof fn lemma_set_changed(fs: Seq<FieldValue>, cv: Seq<FieldValue>, m: Seq<bool>, id: ComponentId, i: nat)
    requires
        m.len() == fs.len(),
        fs.len() <= usize::MAX,
        i <= m.len(),
    ensures
        set_fields(fs, changed(cv, m, i), id, 0) == Ok::<Seq<FieldValue>, CodecError>(merge_from(fs, cv, m, i)),
    decreases m.len() - i,
{
    if i < m.len() {
        if m[i as int] {
            let fs2 = fs.update(i as int, cv[i as int]);
            lemma_set_changed(fs2, cv, m, id, i + 1);
            lemma_set_fields_shift(fs, (i as usize, cv[i as int]), changed(cv, m, i + 1), id, 0);
            lemma_set_fields_shift(fs2, (i as usize, cv[i as int]), changed(cv, m, i + 1), id, 0);
            assert(merge_from(fs2, cv, m, i + 1) =~= merge_from(fs, cv, m, i));
        } else {
            lemma_set_changed(fs, cv, m, id, i + 1);
            assert(merge_from(fs, cv, m, i + 1) =~= merge_from(fs, cv, m, i));
        }
    } else {
        assert(merge_from(fs, cv, m, i) =~= fs);
    }
}

/// The schema components from `k` on that both entities have pass the field
/// checks and have a change mask; the others are on neither.
pub open spec fn comps_ok(comps: Seq<ComponentDef>, bcs: Seq<ComponentV>, ccs: Seq<ComponentV>, limits: CodecLimits, k: nat) -> bool
    decreases comps.len() - k,
{
    if k >= comps.len() {
        true
    } else {
        (match (find_comp(bcs, comps[k as int].id), find_comp(ccs, comps[k as int].id)) {
            (Some(bi), Some(ci)) => pair_check(comps[k as int], bcs[bi as int].1, ccs[ci as int].1, limits) is None
                && mask_from(comps[k as int].id, comps[k as int].fields@, bcs[bi as int].1, ccs[ci as int].1, 0) is Ok,
            (None, None) => true,
            _ => false,
        }) && comps_ok(comps, bcs, ccs, limits, k + 1)
    }
}

/// The change mask of a component both entities have.
pub open spec fn comp_mask(c: ComponentDef, bv: Seq<FieldValue>, cv: Seq<FieldValue>) -> Seq<bool> {
    mask_from(c.id, c.fields@, bv, cv, 0)->Ok_0
}

/// The component updates of a matched entity, schema components from `k`
/// on: each component with a changed field, with its changed values.
pub open spec fn comp_updates(comps: Seq<ComponentDef>, bcs: Seq<ComponentV>, ccs: Seq<ComponentV>, k: nat) -> Seq<UpdCompV>
    decreases comps.len() - k,
{
    if k >= comps.len() {
        Seq::empty()
    } else {
        match (find_comp(bcs, comps[k as int].id), find_comp(ccs, comps[k as int].id)) {
            (Some(bi), Some(ci)) => {
                let m = comp_mask(comps[k as int], bcs[bi as int].1, ccs[ci as int].1);
                if count_true(m) > 0 {
                    seq![(comps[k as int].id, changed(ccs[ci as int].1, m, 0))] + comp_updates(comps, bcs, ccs, k + 1)
                } else {
                    comp_updates(comps, bcs, ccs, k + 1)
                }
            },
            _ => comp_updates(comps, bcs, ccs, k + 1),
        }
    }
}

/// A matched entity's components `cs` after the updates of schema components
/// `k..`: changed fields take the current value, the others keep theirs.
pub open spec fn merged_comps(
    comps: Seq<ComponentDef>,
    bcs: Seq<ComponentV>,
    ccs: Seq<ComponentV>,
    cs: Seq<ComponentV>,
    k: nat,
) -> Seq<ComponentV>
    decreases comps.len() - k,
{
    if k >= comps.len() {
        cs
    } else {
        match (find_comp(bcs, comps[k as int].id), find_comp(ccs, comps[k as int].id)) {
            (Some(bi), Some(ci)) => {
                let m = comp_mask(comps[k as int], bcs[bi as int].1, ccs[ci as int].1);
                if count_true(m) > 0 {
                    merged_comps(
                        comps,
                        bcs,
                        ccs,
                        cs.update(bi as int, (cs[bi as int].0, merge_from(cs[bi as int].1, ccs[ci as int].1, m, 0))),
                        k + 1,
                    )
                } else {
                    merged_comps(comps, bcs, ccs, cs, k + 1)
                }
            },
            _ => merged_comps(comps, bcs, ccs, cs, k + 1),
        }
    }
}

/// Two component lists with the same ids at the same places.
pub open spec fn same_ids(a: Seq<ComponentV>, b: Seq<ComponentV>) -> bool {
    a.len() == b.len() && forall|x: int| #![trigger a[x]] 0 <= x < a.len() ==> a[x].0 == b[x].0 && a[x].1.len() == b[x].1.len()
}

proof fn lemma_find_same(a: Seq<ComponentV>, b: Seq<ComponentV>, id: ComponentId, i: nat)
    requires
        same_ids(a, b),
    ensures
        find_from(a, id, i) == find_from(b, id, i),
    decreases a.len() - i,
{
    if i < a.len() {
        assert(a[i as int].0 == b[i as int].0);
        lemma_find_same(a, b, id, i + 1);
    }
}

proof fn lemma_find_in(a: Seq<ComponentV>, id: ComponentId, i: nat)
    ensures
        find_from(a, id, i) matches Some(x) ==> x < a.len() && a[x as int].0 == id,
    decreases a.len() - i,
{
    if i < a.len() {
        lemma_find_in(a, id, i + 1);
    }
}

pub proof fn lemma_mask_len(cid: ComponentId, fs: Seq<FieldDef>, bv: Seq<FieldValue>, cv: Seq<FieldValue>, k: nat)
    requires
        k <= fs.len(),
        mask_from(cid, fs, bv, cv, k) is Ok,
    ensures
        mask_from(cid, fs, bv, cv, k)->Ok_0.len() == fs.len() - k,
    decreases fs.len() - k,
{
    if k < fs.len() {
        lemma_mask_len(cid, fs, bv, cv, k + 1);
    }
}

proof fn lemma_update_comps_shift(cs: Seq<ComponentV>, eid: u32, x: UpdCompV, l: Seq<UpdCompV>, k: nat)
    ensures
        update_comps(cs, eid, seq![x] + l, k + 1) == update_comps(cs, eid, l, k),
    decreases l.len() - k,
{
    let l2 = seq![x] + l;
    if k < l.len() {
        assert(l2[(k + 1) as int] == l[k as int]);
        match find_comp(cs, l[k as int].0) {
            None => {},
            Some(ci) => match set_fields(cs[ci as int].1, l[k as int].1, l[k as int].0, 0) {
                Err(_) => {},
                Ok(fs) => {
                    lemma_update_comps_shift(cs.update(ci as int, (cs[ci as int].0, fs)), eid, x, l, k + 1);
                },
            },
        }
    }
}

/// Applying a matched entity's component updates gives its merged components.
proof fn lemma_apply_comp_updates(
    comps: Seq<ComponentDef>,
    bcs: Seq<ComponentV>,
    ccs: Seq<ComponentV>,
    cs: Seq<ComponentV>,
    eid: u32,
    limits: CodecLimits,
    k: nat,
)
    requires
        k <= comps.len(),
        comps_ok(comps, bcs, ccs, limits, k),
        same_ids(cs, bcs),
    ensures
        update_comps(cs, eid, comp_updates(comps, bcs, ccs, k), 0) == Ok::<Seq<ComponentV>, CodecError>(
            merged_comps(comps, bcs, ccs, cs, k),
        ),
    decreases comps.len() - k,
{
    if k < comps.len() {
        let c = comps[k as int];
        lemma_find_in(bcs, c.id, 0);
        lemma_find_in(ccs, c.id, 0);
        match (find_comp(bcs, c.id), find_comp(ccs, c.id)) {
            (Some(bi), Some(ci)) => {
                let m = comp_mask(c, bcs[bi as int].1, ccs[ci as int].1);
                lemma_mask_len(c.id, c.fields@, bcs[bi as int].1, ccs[ci as int].1, 0);
                if count_true(m) > 0 {
                    let ch = changed(ccs[ci as int].1, m, 0);
                    let rest = comp_updates(comps, bcs, ccs, k + 1);
                    lemma_find_same(cs, bcs, c.id, 0);
                    assert(cs[bi as int].0 == bcs[bi as int].0);
                    assert(cs[bi as int].1.len() == bcs[bi as int].1.len());
                    lemma_set_changed(cs[bi as int].1, ccs[ci as int].1, m, c.id, 0);
                    let cs2 = cs.update(bi as int, (cs[bi as int].0, merge_from(cs[bi as int].1, ccs[ci as int].1, m, 0)));
                    assert(same_ids(cs2, bcs)) by {
                        assert forall|x: int| #![trigger cs2[x]] 0 <= x < cs2.len() implies cs2[x].0 == bcs[x].0 && cs2[x].1.len()
                            == bcs[x].1.len() by {
                            assert(cs[x].0 == bcs[x].0 && cs[x].1.len() == bcs[x].1.len());
                            if x == bi {
                                assert(cs2[x].1.len() == cs[bi as int].1.len());
                            } else {
                                assert(cs2[x] == cs[x]);
                            }
                        }
                    }
                    lemma_apply_comp_updates(comps, bcs, ccs, cs2, eid, limits, k + 1);
                    lemma_update_comps_shift(cs2, eid, (c.id, ch), rest, 0);
                } else {
                    lemma_apply_comp_updates(comps, bcs, ccs, cs, eid, limits, k + 1);
                }
            },
            _ => {
                lemma_apply_comp_updates(comps, bcs, ccs, cs, eid, limits, k + 1);
            },
        }
    }
}

// ---------------------------------------------------------------------------
// Entity updates.
/// The entity updates of a delta over matched pairs `ps`: each pair that has
/// a change, with its component updates.
pub open spec fn entity_updates(
    comps: Seq<ComponentDef>,
    b: Seq<EntityV>,
    c: Seq<EntityV>,
    ps: Seq<(nat, nat)>,
    limits: CodecLimits,
) -> Seq<UpdEntV>
    decreases ps.len(),
{
    if ps.len() == 0 {
        Seq::empty()
    } else {
        let (x, y) = ps[0];
        let rest = entity_updates(comps, b, c, ps.drop_first(), limits);
        if has_updates(comps, b[x as int], c[y as int], limits) == Ok::<bool, CodecError>(true) {
            seq![(c[y as int].0, comp_updates(comps, b[x as int].1, c[y as int].1, 0))] + rest
        } else {
            rest
        }
    }
}

/// Every matched pair in `ps` has a known change status, and a changed one
/// passes the component checks.
pub open spec fn pairs_ok(comps: Seq<ComponentDef>, b: Seq<EntityV>, c: Seq<EntityV>, ps: Seq<(nat, nat)>, limits: CodecLimits) -> bool {
    forall|t: int|
        0 <= t < ps.len() ==> {
            let (x, y) = #[trigger] ps[t];
            &&& has_updates(comps, b[x as int], c[y as int], limits) is Ok
            &&& has_updates(comps, b[x as int], c[y as int], limits) == Ok::<bool, CodecError>(true) ==> comps_ok(
                comps,
                b[x as int].1,
                c[y as int].1,
                limits,
                0,
            )
        }
}

/// A matched entity after the delta: its baseline components, with the
/// changed fields at their current values.
pub open spec fn matched_result(comps: Seq<ComponentDef>, be: EntityV, ce: EntityV, limits: CodecLimits) -> EntityV {
    if has_updates(comps, be, ce, limits) == Ok::<bool, CodecError>(true) {
        (be.0, merged_comps(comps, be.1, ce.1, be.1, 0))
    } else {
        be
    }
}

/// The entities a delta leads to, from `(i, j)` of the walk: the current
/// ids in order; a created entity with its current components in schema
/// order; a kept one with its baseline components and changed fields at
/// their current values.
pub open spec fn target_from(
    comps: Seq<ComponentDef>,
    b: Seq<EntityV>,
    c: Seq<EntityV>,
    limits: CodecLimits,
    i: nat,
    j: nat,
) -> Seq<EntityV>
    decreases (if i < b.len() {
        b.len() - i
    } else {
        0
    }) + (if j < c.len() {
        c.len() - j
    } else {
        0
    }),
{
    if i < b.len() && j < c.len() {
        if b[i as int].0@ < c[j as int].0@ {
            target_from(comps, b, c, limits, i + 1, j)
        } else if b[i as int].0@ > c[j as int].0@ {
            seq![(c[j as int].0, canon_comps(comps, c[j as int].1, 0))] + target_from(comps, b, c, limits, i, j + 1)
        } else {
            seq![matched_result(comps, b[i as int], c[j as int], limits)] + target_from(comps, b, c, limits, i + 1, j + 1)
        }
    } else if i < b.len() {
        target_from(comps, b, c, limits, i + 1, j)
    } else if j < c.len() {
        seq![(c[j as int].0, canon_comps(comps, c[j as int].1, 0))] + target_from(comps, b, c, limits, i, j + 1)
    } else {
        Seq::empty()
    }
}

proof fn lemma_merged_ids(comps: Seq<ComponentDef>, b: Seq<EntityV>, c: Seq<EntityV>, i: nat, j: nat)
    requires
        i <= b.len(),
        j <= c.len(),
    ensures
        merged_from(comps, b, c, i, j).len() == c.len() - j,
        forall|t: int| 0 <= t < c.len() - j ==> (#[trigger] merged_from(comps, b, c, i, j)[t]).0 == c[j + t].0,
    decreases (b.len() - i) + (c.len() - j),
{
    broadcast use super::types::lemma_entity_id_of_view;
    let m = merged_from(comps, b, c, i, j);
    if i < b.len() && j < c.len() {
        if b[i as int].0@ < c[j as int].0@ {
            lemma_merged_ids(comps, b, c, i + 1, j);
        } else if b[i as int].0@ > c[j as int].0@ {
            lemma_merged_ids(comps, b, c, i, j + 1);
            assert forall|t: int| 0 <= t < c.len() - j implies (#[trigger] m[t]).0 == c[j + t].0 by {
                if t > 0 {
                    assert(m[t] == merged_from(comps, b, c, i, j + 1)[t - 1]);
                }
            }
        } else {
            lemma_merged_ids(comps, b, c, i + 1, j + 1);
            super::types::lemma_entity_id_view(b[i as int].0, c[j as int].0);
            assert forall|t: int| 0 <= t < c.len() - j implies (#[trigger] m[t]).0 == c[j + t].0 by {
                if t > 0 {
                    assert(m[t] == merged_from(comps, b, c, i + 1, j + 1)[t - 1]);
                }
            }
        }
    } else if i < b.len() {
        lemma_merged_ids(comps, b, c, i + 1, j);
    } else if j < c.len() {
        lemma_merged_ids(comps, b, c, i, j + 1);
        assert forall|t: int| 0 <= t < c.len() - j implies (#[trigger] m[t]).0 == c[j + t].0 by {
            if t > 0 {
                assert(m[t] == merged_from(comps, b, c, i, j + 1)[t - 1]);
            }
        }
    }
}

proof fn lemma_entity_at(es: Seq<EntityV>, id: u32, i: nat, m: nat)
    requires
        i <= m < es.len(),
        es[m as int].0@ == id,
        forall|x: int| i <= x < m ==> es[x].0@ != id,
    ensures
        entity_from(es, id, i) == Some(m),
    decreases m - i,
{
    if i < m {
        lemma_entity_at(es, id, i + 1, m);
    }
}

proof fn lemma_updates_follow(
    comps: Seq<ComponentDef>,
    b: Seq<EntityV>,
    c: Seq<EntityV>,
    limits: CodecLimits,
    i: nat,
    j: nat,
    pre: Seq<EntityV>,
    us: Seq<UpdEntV>,
    k: nat,
)
    requires
        ids_sorted(b),
        ids_sorted(c),
        i <= b.len(),
        j <= c.len(),
        pre.len() == j,
        forall|t: int| 0 <= t < j ==> (#[trigger] pre[t]).0 == c[t].0,
        k <= us.len(),
        us.subrange(k as int, us.len() as int) == entity_updates(comps, b, c, walk(ids(b), ids(c), i, j).2, limits),
        pairs_ok(comps, b, c, walk(ids(b), ids(c), i, j).2, limits),
    ensures
        update_entities(pre + merged_from(comps, b, c, i, j), us, k) == Ok::<Seq<EntityV>, CodecError>(
            pre + target_from(comps, b, c, limits, i, j),
        ),
    decreases (b.len() - i) + (c.len() - j),
{
    let bi = ids(b);
    let ci = ids(c);
    let r = walk(bi, ci, i, j);
    lemma_walk_facts(bi, ci, i, j);
    if i < b.len() && j < c.len() {
        assert(bi[i as int] == b[i as int].0@ && ci[j as int] == c[j as int].0@);
        if b[i as int].0@ < c[j as int].0@ {
            lemma_updates_follow(comps, b, c, limits, i + 1, j, pre, us, k);
        } else if b[i as int].0@ > c[j as int].0@ {
            let e = (c[j as int].0, canon_comps(comps, c[j as int].1, 0));
            let pre2 = pre.push(e);
            assert(pre + merged_from(comps, b, c, i, j) =~= pre2 + merged_from(comps, b, c, i, j + 1));
            assert(pre + target_from(comps, b, c, limits, i, j) =~= pre2 + target_from(comps, b, c, limits, i, j + 1));
            assert forall|t: int| 0 <= t < j + 1 implies (#[trigger] pre2[t]).0 == c[t].0 by {
                if t < j {
                    assert(pre2[t] == pre[t]);
                }
            }
            lemma_updates_follow(comps, b, c, limits, i, j + 1, pre2, us, k);
        } else {
            let r2 = walk(bi, ci, i + 1, j + 1);
            assert(r.2 == seq![(i, j)] + r2.2);
            assert(r.2.drop_first() =~= r2.2);
            assert(r.2[0] == (i, j));
            assert(pairs_ok(comps, b, c, r2.2, limits)) by {
                assert forall|t: int| 0 <= t < r2.2.len() implies {
                    let (x, y) = #[trigger] r2.2[t];
                    &&& has_updates(comps, b[x as int], c[y as int], limits) is Ok
                    &&& has_updates(comps, b[x as int], c[y as int], limits) == Ok::<bool, CodecError>(true) ==> comps_ok(
                        comps,
                        b[x as int].1,
                        c[y as int].1,
                        limits,
                        0,
                    )
                } by {
                    assert(r.2[t + 1] == r2.2[t]);
                }
            }
            super::types::lemma_entity_id_view(b[i as int].0, c[j as int].0);
            let es = pre + merged_from(comps, b, c, i, j);
            let m2 = merged_from(comps, b, c, i + 1, j + 1);
            assert(es =~= pre.push(b[i as int]) + m2);
            let res = matched_result(comps, b[i as int], c[j as int], limits);
            let pre2 = pre.push(res);
            assert forall|t: int| 0 <= t < j + 1 implies (#[trigger] pre2[t]).0 == c[t].0 by {
                if t < j {
                    assert(pre2[t] == pre[t]);
                }
            }
            assert(pre + target_from(comps, b, c, limits, i, j) =~= pre2 + target_from(comps, b, c, limits, i + 1, j + 1));
            let hu = has_updates(comps, b[i as int], c[j as int], limits);
            if hu == Ok::<bool, CodecError>(true) {
                let u = (c[j as int].0, comp_updates(comps, b[i as int].1, c[j as int].1, 0));
                lemma_sub_shift(us, k, u, entity_updates(comps, b, c, r2.2, limits));
                lemma_merged_ids(comps, b, c, i, j);
                assert(es[j as int] == b[i as int]);
                assert forall|x: int| 0 <= x < j implies es[x].0@ != c[j as int].0@ by {
                    assert(es[x] == pre[x]);
                    assert(pre[x].0 == c[x].0);
                }
                lemma_entity_at(es, c[j as int].0@, 0, j);
                lemma_apply_comp_updates(comps, b[i as int].1, c[j as int].1, b[i as int].1, c[j as int].0@, limits, 0);
                let es2 = es.update(j as int, (es[j as int].0, merged_comps(comps, b[i as int].1, c[j as int].1, b[i as int].1, 0)));
                assert(es2 =~= pre2 + m2);
                lemma_updates_follow(comps, b, c, limits, i + 1, j + 1, pre2, us, k + 1);
            } else {
                assert(res == b[i as int]);
                lemma_updates_follow(comps, b, c, limits, i + 1, j + 1, pre2, us, k);
            }
        }
    } else if i < b.len() {
        lemma_updates_follow(comps, b, c, limits, i + 1, j, pre, us, k);
    } else if j < c.len() {
        let e = (c[j as int].0, canon_comps(comps, c[j as int].1, 0));
        let pre2 = pre.push(e);
        assert(pre + merged_from(comps, b, c, i, j) =~= pre2 + merged_from(comps, b, c, i, j + 1));
        assert(pre + target_from(comps, b, c, limits, i, j) =~= pre2 + target_from(comps, b, c, limits, i, j + 1));
        assert forall|t: int| 0 <= t < j + 1 implies (#[trigger] pre2[t]).0 == c[t].0 by {
            if t < j {
                assert(pre2[t] == pre[t]);
            }
        }
        lemma_updates_follow(comps, b, c, limits, i, j + 1, pre2, us, k);
    } else {
        assert(us.subrange(k as int, us.len() as int).len() == 0);
        assert(pre + merged_from(comps, b, c, i, j) =~= pre);
        assert(pre + target_from(comps, b, c, limits, i, j) =~= pre);
    }
}

proof fn lemma_no_order_error(es: Seq<EntityV>, k: nat)
    requires
        forall|t: int| 0 < t < es.len() ==> (#[trigger] es[t]).0@ > es[t - 1].0@,
    ensures
        order_error(es, k) is None,
    decreases es.len() - k,
{
    if k < es.len() {
        lemma_no_order_error(es, k + 1);
    }
}

/// Applying a delta's destroys, creates and updates, as its sections decode,
/// to the baseline gives the delta's target entities.
pub proof fn lemma_apply_delta_changes(comps: Seq<ComponentDef>, b: Seq<EntityV>, c: Seq<EntityV>, limits: CodecLimits)
    requires
        order_error(b, 0) is None,
        order_error(c, 0) is None,
        pairs_ok(comps, b, c, walk(ids(b), ids(c), 0, 0).2, limits),
        c.len() <= limits.max_total_entities_after_apply,
    ensures
        changes_result(
            b,
            destroyed_from(b, c, 0, 0),
            created_from(comps, b, c, 0, 0),
            entity_updates(comps, b, c, walk(ids(b), ids(c), 0, 0).2, limits),
            limits,
        ) == Ok::<Seq<EntityV>, CodecError>(target_from(comps, b, c, limits, 0, 0)),
{
    super::apply::lemma_order_sorted(b);
    super::apply::lemma_order_sorted(c);
    let ds = destroyed_from(b, c, 0, 0);
    let cs = created_from(comps, b, c, 0, 0);
    let us = entity_updates(comps, b, c, walk(ids(b), ids(c), 0, 0).2, limits);
    let r = walk(ids(b), ids(c), 0, 0);
    lemma_walk_facts(ids(b), ids(c), 0, 0);
    assert forall|t: int| 0 < t < cs.len() implies (#[trigger] cs[t]).0@ > cs[t - 1].0@ by {
        assert(r.1[t - 1] < r.1[t]);
    }
    lemma_no_order_error(cs, 0);
    assert(ds.subrange(0, ds.len() as int) =~= ds);
    lemma_destroy_follow(b, c, ds, 0, 0, 0, Seq::empty());
    let kept = kept_from(b, c, 0, 0);
    assert(Seq::<EntityV>::empty() + kept =~= kept);
    assert(kept.subrange(0, kept.len() as int) =~= kept);
    assert(cs.subrange(0, cs.len() as int) =~= cs);
    lemma_create_follow(comps, b, c, kept, cs, 0, 0, 0, 0, Seq::empty());
    let merged = merged_from(comps, b, c, 0, 0);
    assert(Seq::<EntityV>::empty() + merged =~= merged);
    lemma_merged_ids(comps, b, c, 0, 0);
    assert(us.subrange(0, us.len() as int) =~= us);
    lemma_updates_follow(comps, b, c, limits, 0, 0, Seq::empty(), us, 0);
    assert(Seq::<EntityV>::empty() + target_from(comps, b, c, limits, 0, 0) =~= target_from(comps, b, c, limits, 0, 0));
}

} // verus!
