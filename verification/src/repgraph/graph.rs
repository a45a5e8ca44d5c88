//! The replication graph: the entities the server tracks, the entities
//! removed since the last clear, and per client the entities it knows and
//! its budget. Where entities sit in space is the caller's: it hands each
//! client's relevant entities in.
use super::{apply_budget, push_unique_components, push_unique_from, ClientBudget, ClientDelta, ClientId, ReplicationConfig, WorldView};
use crate::codec::{DeltaUpdateEntity, EntityId, EntitySnapshot};
use crate::schema::ComponentId;
use vstd::prelude::*;

verus! {

/// Keys in strictly increasing order.
pub open spec fn increasing(s: Seq<u32>) -> bool {
    forall|i: int, j: int| 0 <= i < j < s.len() ==> s[i] < s[j]
}

/// The first place from `i` on where the keys `s` reach `x`.
pub open spec fn key_point(s: Seq<u32>, x: u32, i: nat) -> nat
    decreases s.len() - i,
{
    if i >= s.len() || s[i as int] >= x {
        i
    } else {
        key_point(s, x, i + 1)
    }
}

proof fn lemma_key_point(s: Seq<u32>, x: u32, i: nat)
    requires
        i <= s.len(),
        increasing(s),
        forall|t: int| 0 <= t < i ==> s[t] < x,
    ensures
        i <= key_point(s, x, i) <= s.len(),
        forall|t: int| 0 <= t < key_point(s, x, i) ==> s[t] < x,
        forall|t: int| key_point(s, x, i) <= t < s.len() ==> s[t] >= x,
    decreases s.len() - i,
{
    if i < s.len() && s[i as int] < x {
        lemma_key_point(s, x, i + 1);
    } else if i < s.len() {
        assert forall|t: int| i <= t < s.len() implies s[t] >= x by {
            if t > i {
                assert(s[i as int] < s[t]);
            }
        }
    }
}

/// Inserting `x` into increasing keys keeps them increasing, when `x` is
/// not among them.
proof fn lemma_insert_increasing(s: Seq<u32>, x: u32)
    requires
        increasing(s),
        !s.contains(x),
    ensures
        increasing(s.insert(key_point(s, x, 0) as int, x)),
{
    lemma_key_point(s, x, 0);
    let p = key_point(s, x, 0);
    let u = s.insert(p as int, x);
    assert forall|i: int, j: int| 0 <= i < j < u.len() implies u[i] < u[j] by {
        if j < p {
            assert(u[i] == s[i] && u[j] == s[j]);
        } else if j == p {
            assert(u[i] == s[i]);
        } else if i < p {
            assert(u[i] == s[i] && u[j] == s[j - 1]);
        } else if i == p {
            assert(u[j] == s[j - 1]);
            assert(s[j - 1] != x);
        } else {
            assert(u[i] == s[i - 1] && u[j] == s[j - 1]);
        }
    }
}

/// Entity ids as numbers.
pub open spec fn id_keys(s: Seq<EntityId>) -> Seq<u32> {
    s.map_values(|e: EntityId| e@)
}

/// Whether `x` is in the increasing keys `s`.
pub open spec fn has_key(s: Seq<u32>, x: u32) -> bool {
    key_point(s, x, 0) < s.len() && s[key_point(s, x, 0) as int] == x
}

/// Increasing keys with `x` added.
pub open spec fn key_insert(s: Seq<u32>, x: u32) -> Seq<u32> {
    if has_key(s, x) {
        s
    } else {
        s.insert(key_point(s, x, 0) as int, x)
    }
}

/// Increasing keys with `x` taken out.
pub open spec fn key_remove(s: Seq<u32>, x: u32) -> Seq<u32> {
    if has_key(s, x) {
        s.remove(key_point(s, x, 0) as int)
    } else {
        s
    }
}

proof fn lemma_has_key(s: Seq<u32>, x: u32)
    requires
        increasing(s),
    ensures
        has_key(s, x) <==> s.contains(x),
{
    lemma_key_point(s, x, 0);
    if s.contains(x) {
        let t = choose|t: int| 0 <= t < s.len() && s[t] == x;
        assert(t >= key_point(s, x, 0));
        if t > key_point(s, x, 0) {
            assert(s[key_point(s, x, 0) as int] < s[t]);
        }
    }
}

/// What the graph tracks of an entity: its id, priority and the components
/// changed since the last clear.
pub struct EntityEntry {
    pub id: EntityId,
    pub priority: u8,
    pub dirty_components: Vec<ComponentId>,
}

/// An entity entry as a value.
pub type EntryV = (u32, u8, Seq<ComponentId>);

impl View for EntityEntry {
    type V = EntryV;

    open spec fn view(&self) -> EntryV {
        (self.id@, self.priority, self.dirty_components@)
    }
}

/// What the graph tracks of a client: its id, budget and the ids of the
/// entities it knows, in increasing order.
pub struct ClientState {
    pub id: ClientId,
    pub budget: ClientBudget,
    pub known_entities: Vec<EntityId>,
}

/// A client state as a value.
pub type ClientV = (u32, ClientBudget, Seq<u32>);

impl View for ClientState {
    type V = ClientV;

    open spec fn view(&self) -> ClientV {
        (self.id.0, self.budget, id_keys(self.known_entities@))
    }
}

/// The keys of entity entries.
pub open spec fn entry_keys(s: Seq<EntryV>) -> Seq<u32> {
    s.map_values(|e: EntryV| e.0)
}

/// Tracked entities, removed entities and clients.
pub struct ReplicationGraph {
    config: ReplicationConfig,
    entities: Vec<EntityEntry>,
    removed_entities: Vec<EntityId>,
    clients: Vec<ClientState>,
}

/// The first place from `i` on where a client has id `c`, or the length.
pub open spec fn client_at(s: Seq<ClientV>, c: u32, i: nat) -> nat
    decreases s.len() - i,
{
    if i >= s.len() || s[i as int].0 == c {
        i
    } else {
        client_at(s, c, i + 1)
    }
}

/// The tracked entities after marking `dirty` on entity `id`: an entity
/// already tracked gains the components it lacks; a new one comes in with
/// priority zero, unless `max` entities are tracked already.
pub open spec fn entity_updated(s: Seq<EntryV>, id: u32, dirty: Seq<ComponentId>, max: usize) -> Seq<EntryV> {
    let k = key_point(entry_keys(s), id, 0);
    if has_key(entry_keys(s), id) {
        s.update(k as int, (id, s[k as int].1, push_unique_from(s[k as int].2, dirty, 0)))
    } else if s.len() >= max {
        s
    } else {
        s.insert(k as int, (id, 0u8, push_unique_from(Seq::empty(), dirty, 0)))
    }
}

/// Each client's known entities increase; no client id twice.
pub open spec fn clients_ok(s: Seq<ClientV>) -> bool {
    &&& forall|i: int| 0 <= i < s.len() ==> increasing(#[trigger] s[i].2)
    &&& forall|i: int, j: int| 0 <= i < j < s.len() ==> #[trigger] s[i].0 != #[trigger] s[j].0
}

/// The tracked entities after setting the priority of entity `id`, when it
/// is tracked.
pub open spec fn entity_prioritized(s: Seq<EntryV>, id: u32, priority: u8) -> Seq<EntryV> {
    let k = key_point(entry_keys(s), id, 0);
    if has_key(entry_keys(s), id) {
        s.update(k as int, (id, priority, s[k as int].2))
    } else {
        s
    }
}

/// The tracked entities without entity `id`.
pub open spec fn entity_removed(s: Seq<EntryV>, id: u32) -> Seq<EntryV> {
    if has_key(entry_keys(s), id) {
        s.remove(key_point(entry_keys(s), id, 0) as int)
    } else {
        s
    }
}

/// The tracked entities with every dirty list emptied.
pub open spec fn entities_cleaned(s: Seq<EntryV>) -> Seq<EntryV> {
    s.map_values(|e: EntryV| (e.0, e.1, Seq::<ComponentId>::empty()))
}

/// Taking an element out of increasing keys keeps them increasing.
proof fn lemma_remove_increasing(s: Seq<u32>, p: int)
    requires
        increasing(s),
        0 <= p < s.len(),
    ensures
        increasing(s.remove(p)),
{
    let u = s.remove(p);
    assert forall|i: int, j: int| 0 <= i < j < u.len() implies u[i] < u[j] by {
        let a = if i < p { i } else { i + 1 };
        let b = if j < p { j } else { j + 1 };
        assert(u[i] == s[a] && u[j] == s[b]);
    }
}

/// Where `id` is, or would go, among increasing entity ids.
fn id_point(v: &Vec<EntityId>, id: u32) -> (r: usize)
    ensures
        r == key_point(id_keys(v@), id, 0),
        r <= v@.len(),
{
    let ghost keys = id_keys(v@);
    let mut i: usize = 0;
    while i < v.len() && v[i].raw() < id
        invariant
            i <= v@.len(),
            keys == id_keys(v@),
            key_point(keys, id, 0) == key_point(keys, id, i as nat),
        decreases v@.len() - i,
    {
        assert(keys[i as int] == v@[i as int]@);
        i = i + 1;
    }
    proof {
        if i < v@.len() {
            assert(keys[i as int] == v@[i as int]@);
        }
    }
    i
}

/// Adds `id` to increasing entity ids.
fn insert_id(v: &mut Vec<EntityId>, id: EntityId)
    requires
        increasing(id_keys(old(v)@)),
    ensures
        increasing(id_keys(final(v)@)),
        id_keys(final(v)@) == key_insert(id_keys(old(v)@), id@),
{
    let ghost keys = id_keys(v@);
    let k = id_point(v, id.raw());
    proof {
        lemma_key_point(keys, id@, 0);
        lemma_has_key(keys, id@);
    }
    if k < v.len() && v[k].raw() == id.raw() {
        assert(keys[k as int] == v@[k as int]@);
        return;
    }
    proof {
        if k < v@.len() {
            assert(keys[k as int] == v@[k as int]@);
        }
    }
    v.insert(k, id);
    proof {
        lemma_insert_increasing(keys, id@);
        assert(id_keys(v@) =~= keys.insert(k as int, id@));
    }
}

/// Takes `id` out of increasing entity ids.
fn remove_id(v: &mut Vec<EntityId>, id: EntityId)
    requires
        increasing(id_keys(old(v)@)),
    ensures
        increasing(id_keys(final(v)@)),
        id_keys(final(v)@) == key_remove(id_keys(old(v)@), id@),
{
    let ghost keys = id_keys(v@);
    let k = id_point(v, id.raw());
    if k < v.len() && v[k].raw() == id.raw() {
        assert(keys[k as int] == v@[k as int]@);
        v.remove(k);
        proof {
            lemma_remove_increasing(keys, k as int);
            assert(id_keys(v@) =~= keys.remove(k as int));
        }
    } else {
        proof {
            if k < v@.len() {
                assert(keys[k as int] == v@[k as int]@);
            }
        }
    }
}

/// The clients after setting the budget of client `c`, adding it with no
/// known entities when it is new.
pub open spec fn client_upserted(s: Seq<ClientV>, c: u32, budget: ClientBudget) -> Seq<ClientV> {
    let k = client_at(s, c, 0);
    if k < s.len() {
        s.update(k as int, (c, budget, s[k as int].2))
    } else {
        s.push((c, budget, Seq::<u32>::empty()))
    }
}

/// The clients without client `c`.
pub open spec fn client_removed(s: Seq<ClientV>, c: u32) -> Seq<ClientV> {
    let k = client_at(s, c, 0);
    if k < s.len() {
        s.remove(k as int)
    } else {
        s
    }
}

proof fn lemma_client_at(s: Seq<ClientV>, c: u32, i: nat)
    requires
        i <= s.len(),
        forall|t: int| 0 <= t < i ==> s[t].0 != c,
    ensures
        i <= client_at(s, c, i) <= s.len(),
        forall|t: int| 0 <= t < client_at(s, c, i) ==> s[t].0 != c,
        client_at(s, c, i) < s.len() ==> s[client_at(s, c, i) as int].0 == c,
    decreases s.len() - i,
{
    if i < s.len() && s[i as int].0 != c {
        lemma_client_at(s, c, i + 1);
    }
}

/// The known ids `k` a client is told to destroy: those no longer relevant
/// and those removed, in increasing order.
pub open spec fn destroys_of(k: Seq<u32>, r: Seq<u32>, removed: Seq<u32>) -> Seq<u32>
    decreases k.len(),
{
    if k.len() == 0 {
        Seq::empty()
    } else {
        let p = destroys_of(k.drop_last(), r, removed);
        let x = k.last();
        if !r.contains(x) || removed.contains(x) {
            p.push(x)
        } else {
            p
        }
    }
}

/// The relevant ids `r` a client does not know yet, in order: one create each.
pub open spec fn creates_of(k: Seq<u32>, r: Seq<u32>) -> Seq<u32>
    decreases r.len(),
{
    if r.len() == 0 {
        Seq::empty()
    } else {
        let p = creates_of(k, r.drop_last());
        if !k.contains(r.last()) {
            p.push(r.last())
        } else {
            p
        }
    }
}

/// Whether a tracked entity `x` has components marked dirty.
pub open spec fn is_dirty(ents: Seq<EntryV>, x: u32) -> bool {
    has_key(entry_keys(ents), x) && ents[key_point(entry_keys(ents), x, 0) as int].2.len() > 0
}

/// The relevant ids `r` the client knows whose entity is tracked and dirty,
/// in order: the world is asked for an update of each.
pub open spec fn updates_of(k: Seq<u32>, r: Seq<u32>, ents: Seq<EntryV>) -> Seq<u32>
    decreases r.len(),
{
    if r.len() == 0 {
        Seq::empty()
    } else {
        let p = updates_of(k, r.drop_last(), ents);
        let x = r.last();
        if k.contains(x) && is_dirty(ents, x) {
            p.push(x)
        } else {
            p
        }
    }
}

/// Increasing keys `k` with each of `d` taken out in turn.
pub open spec fn remove_all(k: Seq<u32>, d: Seq<u32>) -> Seq<u32>
    decreases d.len(),
{
    if d.len() == 0 {
        k
    } else {
        key_remove(remove_all(k, d.drop_last()), d.last())
    }
}

/// Increasing keys `k` with each of `c` added in turn.
pub open spec fn insert_all(k: Seq<u32>, c: Seq<u32>) -> Seq<u32>
    decreases c.len(),
{
    if c.len() == 0 {
        k
    } else {
        key_insert(insert_all(k, c.drop_last()), c.last())
    }
}

/// The ids of entity snapshots.
pub open spec fn snapshot_ids(s: Seq<EntitySnapshot>) -> Seq<u32> {
    s.map_values(|e: EntitySnapshot| e.id@)
}

/// Whether `x` is among the entity ids `v`.
fn contains_id(v: &[EntityId], x: u32) -> (r: bool)
    ensures
        r == id_keys(v@).contains(x),
{
    let ghost keys = id_keys(v@);
    let mut i: usize = 0;
    while i < v.len()
        invariant
            i <= v@.len(),
            keys == id_keys(v@),
            forall|t: int| 0 <= t < i ==> keys[t] != x,
        decreases v@.len() - i,
    {
        assert(keys[i as int] == v@[i as int]@);
        if v[i].raw() == x {
            return true;
        }
        i = i + 1;
    }
    false
}

/// Destroys are drawn from the known ids, in their order: from increasing
/// known ids they come out increasing.
pub proof fn lemma_destroys_increasing(k: Seq<u32>, r: Seq<u32>, removed: Seq<u32>)
    requires
        increasing(k),
    ensures
        increasing(destroys_of(k, r, removed)),
        forall|x: u32| destroys_of(k, r, removed).contains(x) ==> k.contains(x),
    decreases k.len(),
{
    if k.len() > 0 {
        let kd = k.drop_last();
        assert(increasing(kd));
        lemma_destroys_increasing(kd, r, removed);
        let p = destroys_of(kd, r, removed);
        assert forall|t: int| 0 <= t < p.len() implies p[t] < k.last() by {
            assert(p.contains(p[t]));
            assert(kd.contains(p[t]));
            let u = choose|u: int| 0 <= u < kd.len() && kd[u] == p[t];
            assert(kd[u] == k[u]);
            assert(k[u] < k[k.len() - 1]);
        }
        assert forall|x: u32| destroys_of(k, r, removed).contains(x) implies k.contains(x) by {
            if p.contains(x) {
                assert(kd.contains(x));
                let u = choose|u: int| 0 <= u < kd.len() && kd[u] == x;
                assert(kd[u] == k[u]);
            } else {
                assert(k[k.len() - 1] == x);
            }
        }
    }
}

proof fn lemma_key_insert(s: Seq<u32>, x: u32)
    requires
        increasing(s),
    ensures
        increasing(key_insert(s, x)),
        forall|y: u32| key_insert(s, x).contains(y) <==> (s.contains(y) || y == x),
{
    lemma_has_key(s, x);
    if !has_key(s, x) {
        lemma_insert_increasing(s, x);
        lemma_key_point(s, x, 0);
        let p = key_point(s, x, 0) as int;
        let u = s.insert(p, x);
        assert forall|y: u32| u.contains(y) <==> (s.contains(y) || y == x) by {
            if u.contains(y) {
                let t = choose|t: int| 0 <= t < u.len() && u[t] == y;
                if t < p {
                    assert(s[t] == y);
                } else if t > p {
                    assert(s[t - 1] == y);
                }
            }
            if s.contains(y) {
                let t = choose|t: int| 0 <= t < s.len() && s[t] == y;
                if t < p {
                    assert(u[t] == y);
                } else {
                    assert(u[t + 1] == y);
                }
            }
            if y == x {
                assert(u[p] == y);
            }
        }
    }
}

proof fn lemma_key_remove(s: Seq<u32>, x: u32)
    requires
        increasing(s),
    ensures
        increasing(key_remove(s, x)),
        forall|y: u32| key_remove(s, x).contains(y) <==> (s.contains(y) && y != x),
{
    lemma_has_key(s, x);
    if has_key(s, x) {
        let p = key_point(s, x, 0) as int;
        lemma_remove_increasing(s, p);
        let u = s.remove(p);
        assert forall|y: u32| u.contains(y) <==> (s.contains(y) && y != x) by {
            if u.contains(y) {
                let t = choose|t: int| 0 <= t < u.len() && u[t] == y;
                if t < p {
                    assert(s[t] == y && s[t] < s[p]);
                } else {
                    assert(s[t + 1] == y && s[p] < s[t + 1]);
                }
            }
            if s.contains(y) && y != x {
                let t = choose|t: int| 0 <= t < s.len() && s[t] == y;
                if t < p {
                    assert(u[t] == y);
                } else {
                    assert(t != p);
                    assert(u[t - 1] == y);
                }
            }
        }
    }
}

proof fn lemma_remove_all(k: Seq<u32>, d: Seq<u32>)
    requires
        increasing(k),
    ensures
        increasing(remove_all(k, d)),
        forall|y: u32| remove_all(k, d).contains(y) <==> (k.contains(y) && !d.contains(y)),
    decreases d.len(),
{
    if d.len() > 0 {
        let dd = d.drop_last();
        lemma_remove_all(k, dd);
        lemma_key_remove(remove_all(k, dd), d.last());
        assert forall|y: u32| d.contains(y) <==> (dd.contains(y) || y == d.last()) by {
            if d.contains(y) {
                let t = choose|t: int| 0 <= t < d.len() && d[t] == y;
                if t < d.len() - 1 {
                    assert(dd[t] == y);
                }
            }
            if dd.contains(y) {
                let t = choose|t: int| 0 <= t < dd.len() && dd[t] == y;
                assert(d[t] == y);
            }
        }
    }
}

proof fn lemma_insert_all(k: Seq<u32>, c: Seq<u32>)
    requires
        increasing(k),
    ensures
        increasing(insert_all(k, c)),
        forall|y: u32| insert_all(k, c).contains(y) <==> (k.contains(y) || c.contains(y)),
    decreases c.len(),
{
    if c.len() > 0 {
        let cd = c.drop_last();
        lemma_insert_all(k, cd);
        lemma_key_insert(insert_all(k, cd), c.last());
        assert forall|y: u32| c.contains(y) <==> (cd.contains(y) || y == c.last()) by {
            if c.contains(y) {
                let t = choose|t: int| 0 <= t < c.len() && c[t] == y;
                if t < c.len() - 1 {
                    assert(cd[t] == y);
                }
            }
            if cd.contains(y) {
                let t = choose|t: int| 0 <= t < cd.len() && cd[t] == y;
                assert(c[t] == y);
            }
        }
    }
}

/// After a delta, a client knows exactly what it knew, less what it was told
/// to destroy, plus what it was sent; its known ids stay increasing.
pub proof fn lemma_known_after(known: Seq<u32>, destroyed: Seq<u32>, created: Seq<u32>)
    requires
        increasing(known),
    ensures
        increasing(insert_all(remove_all(known, destroyed), created)),
        forall|y: u32| #[trigger] insert_all(remove_all(known, destroyed), created).contains(y) <==> ((known.contains(y)
            && !destroyed.contains(y)) || created.contains(y)),
{
    lemma_remove_all(known, destroyed);
    lemma_insert_all(remove_all(known, destroyed), created);
}

/// The ids a client that knows `known` is told to destroy, given the
/// relevant and the removed ids.
pub fn delta_destroys(known: &[EntityId], relevant: &[EntityId], removed: &[EntityId]) -> (r: Vec<EntityId>)
    ensures
        id_keys(r@) == destroys_of(id_keys(known@), id_keys(relevant@), id_keys(removed@)),
{
    let ghost k = id_keys(known@);
    let ghost rr = id_keys(relevant@);
    let ghost rem = id_keys(removed@);
    let mut out: Vec<EntityId> = Vec::new();
    let mut i: usize = 0;
    assert(k.take(0) =~= Seq::<u32>::empty());
    assert(id_keys(out@) =~= Seq::<u32>::empty());
    while i < known.len()
        invariant
            i <= known@.len(),
            k == id_keys(known@),
            rr == id_keys(relevant@),
            rem == id_keys(removed@),
            id_keys(out@) == destroys_of(k.take(i as int), rr, rem),
        decreases known@.len() - i,
    {
        let id = known[i];
        let ghost before = id_keys(out@);
        assert(k.take(i + 1).drop_last() =~= k.take(i as int));
        assert(k.take(i + 1).last() == id@);
        if !contains_id(relevant, id.raw()) || contains_id(removed, id.raw()) {
            out.push(id);
            assert(id_keys(out@) =~= before.push(id@));
        }
        i = i + 1;
    }
    assert(k.take(known@.len() as int) =~= k);
    out
}

/// The values of the `Some` entries of `s`, in order.
pub open spec fn somes<T>(s: Seq<Option<T>>) -> Seq<T>
    decreases s.len(),
{
    if s.len() == 0 {
        Seq::empty()
    } else {
        match s.last() {
            Some(v) => somes(s.drop_last()).push(v),
            None => somes(s.drop_last()),
        }
    }
}

proof fn lemma_somes_len<T>(s: Seq<Option<T>>)
    ensures
        somes(s).len() <= s.len(),
    decreases s.len(),
{
    if s.len() > 0 {
        lemma_somes_len(s.drop_last());
    }
}

impl ReplicationGraph {
    /// The configuration the graph was made with.
    pub closed spec fn cfg(&self) -> ReplicationConfig {
        self.config
    }

    /// The tracked entities in increasing id order.
    pub closed spec fn entities_view(&self) -> Seq<EntryV> {
        self.entities@.map_values(|e: EntityEntry| e@)
    }

    /// The ids removed since the last clear, increasing.
    pub closed spec fn removed_view(&self) -> Seq<u32> {
        id_keys(self.removed_entities@)
    }

    /// The clients, in the order they were added.
    pub closed spec fn clients_view(&self) -> Seq<ClientV> {
        self.clients@.map_values(|c: ClientState| c@)
    }

    /// Ids increase along the tracked and removed entities and along each
    /// client's known entities; no client id twice.
    pub open spec fn wf(&self) -> bool {
        &&& increasing(entry_keys(self.entities_view()))
        &&& increasing(self.removed_view())
        &&& clients_ok(self.clients_view())
    }

    /// An empty graph.
    pub fn new(config: ReplicationConfig) -> (r: Self)
        ensures
            r.wf(),
            r.cfg() == config,
            r.entities_view() == Seq::<EntryV>::empty(),
            r.removed_view() == Seq::<u32>::empty(),
            r.clients_view() == Seq::<ClientV>::empty(),
    {
        let r = ReplicationGraph { config, entities: Vec::new(), removed_entities: Vec::new(), clients: Vec::new() };
        assert(r.entities_view() =~= Seq::<EntryV>::empty());
        assert(r.removed_view() =~= Seq::<u32>::empty());
        assert(r.clients_view() =~= Seq::<ClientV>::empty());
        r
    }

    /// Where entity `id` is, or would go, among the tracked entities.
    fn entity_point(&self, id: u32) -> (r: usize)
        ensures
            r == key_point(entry_keys(self.entities_view()), id, 0),
            r <= self.entities@.len(),
    {
        let ghost keys = entry_keys(self.entities_view());
        let mut i: usize = 0;
        while i < self.entities.len() && self.entities[i].id.raw() < id
            invariant
                i <= self.entities@.len(),
                keys == entry_keys(self.entities_view()),
                key_point(keys, id, 0) == key_point(keys, id, i as nat),
            decreases self.entities@.len() - i,
        {
            assert(keys[i as int] == self.entities@[i as int].id@);
            i = i + 1;
        }
        proof {
            if i < self.entities@.len() {
                assert(keys[i as int] == self.entities@[i as int].id@);
            }
        }
        i
    }

    /// Marks components of an entity dirty, tracking it when it is new and
    /// the cap allows.
    pub fn update_entity(&mut self, entity: EntityId, dirty_components: &[ComponentId])
        requires
            old(self).wf(),
        ensures
            final(self).wf(),
            final(self).entities_view() == entity_updated(
                old(self).entities_view(),
                entity@,
                dirty_components@,
                old(self).cfg().max_entities,
            ),
            final(self).removed_view() == old(self).removed_view(),
            final(self).clients_view() == old(self).clients_view(),
            final(self).cfg() == old(self).cfg(),
    {
        let ghost s0 = self.entities_view();
        let ghost keys = entry_keys(s0);
        let k = self.entity_point(entity.raw());
        if k < self.entities.len() && self.entities[k].id.raw() == entity.raw() {
            let mut e = self.entities.remove(k);
            push_unique_components(&mut e.dirty_components, dirty_components);
            self.entities.insert(k, e);
            proof {
                assert(self.entities_view() =~= s0.update(k as int, (entity@, s0[k as int].1, push_unique_from(s0[k as int].2, dirty_components@, 0))));
                assert(entry_keys(self.entities_view()) =~= keys);
            }
        } else {
            if self.entities.len() >= self.config.max_entities {
                return;
            }
            let mut d: Vec<ComponentId> = Vec::new();
            push_unique_components(&mut d, dirty_components);
            self.entities.insert(k, EntityEntry { id: entity, priority: 0, dirty_components: d });
            proof {
                lemma_has_key(keys, entity@);
                lemma_insert_increasing(keys, entity@);
                assert(self.entities_view() =~= s0.insert(k as int, (entity@, 0u8, push_unique_from(Seq::empty(), dirty_components@, 0))));
                assert(entry_keys(self.entities_view()) =~= keys.insert(k as int, entity@));
            }
        }
    }
    /// Sets the priority of a tracked entity; an untracked one is ignored.
    pub fn set_entity_priority(&mut self, entity: EntityId, priority: u8)
        requires
            old(self).wf(),
        ensures
            final(self).wf(),
            final(self).entities_view() == entity_prioritized(old(self).entities_view(), entity@, priority),
            final(self).removed_view() == old(self).removed_view(),
            final(self).clients_view() == old(self).clients_view(),
            final(self).cfg() == old(self).cfg(),
    {
        let ghost s0 = self.entities_view();
        let ghost keys = entry_keys(s0);
        let k = self.entity_point(entity.raw());
        if k < self.entities.len() && self.entities[k].id.raw() == entity.raw() {
            let mut e = self.entities.remove(k);
            e.priority = priority;
            self.entities.insert(k, e);
            proof {
                assert(self.entities_view() =~= s0.update(k as int, (entity@, priority, s0[k as int].2)));
                assert(entry_keys(self.entities_view()) =~= keys);
            }
        } else {
            proof {
                lemma_key_point(keys, entity@, 0);
                if k < self.entities@.len() {
                    assert(keys[k as int] == self.entities@[k as int].id@);
                }
            }
        }
    }

    /// Stops tracking an entity and records it as removed, so that clients
    /// that know it are told to destroy it.
    pub fn remove_entity(&mut self, entity: EntityId)
        requires
            old(self).wf(),
        ensures
            final(self).wf(),
            final(self).entities_view() == entity_removed(old(self).entities_view(), entity@),
            final(self).removed_view() == key_insert(old(self).removed_view(), entity@),
            final(self).clients_view() == old(self).clients_view(),
            final(self).cfg() == old(self).cfg(),
    {
        let ghost s0 = self.entities_view();
        let ghost keys = entry_keys(s0);
        let k = self.entity_point(entity.raw());
        if k < self.entities.len() && self.entities[k].id.raw() == entity.raw() {
            self.entities.remove(k);
            proof {
                assert(keys[k as int] == entity@);
                lemma_remove_increasing(keys, k as int);
                assert(self.entities_view() =~= s0.remove(k as int));
                assert(entry_keys(self.entities_view()) =~= keys.remove(k as int));
            }
        } else {
            proof {
                if k < self.entities@.len() {
                    assert(keys[k as int] == self.entities@[k as int].id@);
                }
            }
        }
        insert_id(&mut self.removed_entities, entity);
    }

    /// Empties every tracked entity's dirty list.
    pub fn clear_dirty(&mut self)
        requires
            old(self).wf(),
        ensures
            final(self).wf(),
            final(self).entities_view() == entities_cleaned(old(self).entities_view()),
            final(self).removed_view() == old(self).removed_view(),
            final(self).clients_view() == old(self).clients_view(),
            final(self).cfg() == old(self).cfg(),
    {
        let ghost s0 = self.entities_view();
        let n = self.entities.len();
        let mut i: usize = 0;
        while i < n
            invariant
                n == self.entities@.len(),
                i <= n,
                s0.len() == n,
                forall|t: int| 0 <= t < i ==> #[trigger] self.entities@[t]@ == (s0[t].0, s0[t].1, Seq::<ComponentId>::empty()),
                forall|t: int| i <= t < n ==> #[trigger] self.entities@[t]@ == s0[t],
                self.removed_view() == old(self).removed_view(),
                self.clients_view() == old(self).clients_view(),
                self.cfg() == old(self).cfg(),
            decreases n - i,
        {
            let id = self.entities[i].id;
            let priority = self.entities[i].priority;
            assert(self.entities@[i as int]@ == s0[i as int]);
            self.entities.set(i, EntityEntry { id, priority, dirty_components: Vec::new() });
            i = i + 1;
        }
        assert(self.entities_view() =~= entities_cleaned(s0));
        assert(entry_keys(self.entities_view()) =~= entry_keys(s0));
    }

    /// Forgets the removed entities.
    pub fn clear_removed(&mut self)
        requires
            old(self).wf(),
        ensures
            final(self).wf(),
            final(self).entities_view() == old(self).entities_view(),
            final(self).removed_view() == Seq::<u32>::empty(),
            final(self).clients_view() == old(self).clients_view(),
            final(self).cfg() == old(self).cfg(),
    {
        self.removed_entities.clear();
        assert(self.removed_view() =~= Seq::<u32>::empty());
    }
    /// Where client `c` is among the clients, or their number.
    fn client_index(&self, c: ClientId) -> (r: usize)
        ensures
            r == client_at(self.clients_view(), c.0, 0),
            r <= self.clients@.len(),
    {
        let ghost cs = self.clients_view();
        let mut i: usize = 0;
        while i < self.clients.len() && self.clients[i].id.0 != c.0
            invariant
                i <= self.clients@.len(),
                cs == self.clients_view(),
                client_at(cs, c.0, 0) == client_at(cs, c.0, i as nat),
            decreases self.clients@.len() - i,
        {
            assert(cs[i as int].0 == self.clients@[i as int].id.0);
            i = i + 1;
        }
        proof {
            if i < self.clients@.len() {
                assert(cs[i as int].0 == self.clients@[i as int].id.0);
            }
        }
        i
    }

    /// Sets a client's budget, adding the client with no known entities when
    /// it is new.
    pub fn upsert_client(&mut self, client: ClientId, budget: ClientBudget)
        requires
            old(self).wf(),
        ensures
            final(self).wf(),
            final(self).clients_view() == client_upserted(old(self).clients_view(), client.0, budget),
            final(self).entities_view() == old(self).entities_view(),
            final(self).removed_view() == old(self).removed_view(),
            final(self).cfg() == old(self).cfg(),
    {
        let ghost s0 = self.clients_view();
        let k = self.client_index(client);
        proof {
            lemma_client_at(s0, client.0, 0);
        }
        if k < self.clients.len() {
            let mut st = self.clients.remove(k);
            st.budget = budget;
            self.clients.insert(k, st);
            assert(self.clients_view() =~= s0.update(k as int, (client.0, budget, s0[k as int].2)));
        } else {
            self.clients.push(ClientState { id: client, budget, known_entities: Vec::new() });
            assert(id_keys(Seq::<EntityId>::empty()) =~= Seq::<u32>::empty());
            assert(self.clients_view() =~= s0.push((client.0, budget, Seq::<u32>::empty())));
        }
    }

    /// Forgets a client and what it knows.
    pub fn remove_client(&mut self, client: ClientId)
        requires
            old(self).wf(),
        ensures
            final(self).wf(),
            final(self).clients_view() == client_removed(old(self).clients_view(), client.0),
            final(self).entities_view() == old(self).entities_view(),
            final(self).removed_view() == old(self).removed_view(),
            final(self).cfg() == old(self).cfg(),
    {
        let ghost s0 = self.clients_view();
        let k = self.client_index(client);
        if k < self.clients.len() {
            self.clients.remove(k);
            proof {
                let u = s0.remove(k as int);
                assert(self.clients_view() =~= u);
                assert forall|i: int| 0 <= i < u.len() implies increasing(#[trigger] u[i].2) by {
                    let a = if i < k { i } else { i + 1 };
                    assert(u[i] == s0[a]);
                }
                assert forall|i: int, j: int| 0 <= i < j < u.len() implies #[trigger] u[i].0 != #[trigger] u[j].0 by {
                    let a = if i < k { i } else { i + 1 };
                    let b = if j < k { j } else { j + 1 };
                    assert(u[i] == s0[a] && u[j] == s0[b]);
                }
            }
        }
    }
    /// `build_client_delta`, also giving, in call order, the snapshots and
    /// the update answers the world returned: one snapshot for each id of
    /// `creates_of`, one answer for each id of `updates_of`. The delta's
    /// creates are those snapshots and its updates the answers that were
    /// `Some`, each cut to the client's budget.
    pub fn build_client_delta_traced<W: WorldView>(
        &mut self,
        client: ClientId,
        relevant: &[EntityId],
        world: &W,
    ) -> (res: (ClientDelta, Ghost<(Seq<EntitySnapshot>, Seq<Option<DeltaUpdateEntity>>)>))
        requires
            old(self).wf(),
        ensures
            final(self).wf(),
            final(self).entities_view() == old(self).entities_view(),
            final(self).removed_view() == old(self).removed_view(),
            final(self).cfg() == old(self).cfg(),
            ({
                let cs = old(self).clients_view();
                let k = client_at(cs, client.0, 0);
                if k >= cs.len() {
                    &&& final(self).clients_view() == cs
                    &&& res.0.creates@.len() == 0
                    &&& res.0.destroys@.len() == 0
                    &&& res.0.updates@.len() == 0
                    &&& res.1@.0.len() == 0
                    &&& res.1@.1.len() == 0
                } else {
                    let st = cs[k as int];
                    let rr = id_keys(relevant@);
                    let ds = destroys_of(st.2, rr, old(self).removed_view());
                    let cr = creates_of(st.2, rr);
                    let up = updates_of(st.2, rr, old(self).entities_view());
                    &&& id_keys(res.0.destroys@) == ds.take(vstd::math::min(ds.len() as int, st.1.max_destroys as int))
                    &&& increasing(id_keys(res.0.destroys@))
                    &&& res.0.creates@.len() == vstd::math::min(cr.len() as int, st.1.max_creates as int)
                    &&& res.0.updates@.len() <= vstd::math::min(up.len() as int, st.1.max_updates as int)
                    &&& res.1@.0.len() == cr.len()
                    &&& res.0.creates@ == res.1@.0.take(vstd::math::min(cr.len() as int, st.1.max_creates as int))
                    &&& res.1@.1.len() == up.len()
                    &&& res.0.updates@ == somes(res.1@.1).take(
                        vstd::math::min(somes(res.1@.1).len() as int, st.1.max_updates as int),
                    )
                    &&& final(self).clients_view() == cs.update(
                        k as int,
                        (st.0, st.1, insert_all(remove_all(st.2, id_keys(res.0.destroys@)), snapshot_ids(res.0.creates@))),
                    )
                }
            }),
    {
        let ghost cs = self.clients_view();
        let k = self.client_index(client);
        if k >= self.clients.len() {
            return (
                ClientDelta { creates: Vec::new(), destroys: Vec::new(), updates: Vec::new() },
                Ghost((Seq::empty(), Seq::empty())),
            );
        }
        proof {
            lemma_client_at(cs, client.0, 0);
        }
        let mut st = self.clients.remove(k);
        assert(st@ == cs[k as int]);
        let ghost cs_id = st.id;
        let ghost cs_budget = st.budget;
        let ghost kn = id_keys(st.known_entities@);
        let ghost rr = id_keys(relevant@);
        let ghost ents = self.entities_view();
        let ghost rem = self.removed_view();
        let mut creates: Vec<EntitySnapshot> = Vec::new();
        let mut updates: Vec<DeltaUpdateEntity> = Vec::new();
        let ghost mut snaps: Seq<EntitySnapshot> = Seq::empty();
        let ghost mut answers: Seq<Option<DeltaUpdateEntity>> = Seq::empty();
        let mut i: usize = 0;
        assert(rr.take(0) =~= Seq::<u32>::empty());
        while i < relevant.len()
            invariant
                i <= relevant@.len(),
                rr == id_keys(relevant@),
                kn == id_keys(st.known_entities@),
                ents == self.entities_view(),
                creates@.len() == creates_of(kn, rr.take(i as int)).len(),
                updates@.len() <= updates_of(kn, rr.take(i as int), ents).len(),
                creates@ == snaps,
                snaps.len() == creates_of(kn, rr.take(i as int)).len(),
                updates@ == somes(answers),
                answers.len() == updates_of(kn, rr.take(i as int), ents).len(),
            decreases relevant@.len() - i,
        {
            let id = relevant[i];
            assert(rr.take(i + 1).drop_last() =~= rr.take(i as int));
            assert(rr.take(i + 1).last() == id@);
            if !contains_id(st.known_entities.as_slice(), id.raw()) {
                let snap = world.snapshot(id);
                proof {
                    snaps = snaps.push(snap);
                }
                creates.push(snap);
            } else {
                let p = self.entity_point(id.raw());
                if p < self.entities.len() && self.entities[p].id.raw() == id.raw()
                    && self.entities[p].dirty_components.len() > 0 {
                    proof {
                        assert(entry_keys(ents)[p as int] == self.entities@[p as int].id@);
                        assert(is_dirty(ents, id@));
                    }
                    let u = world.update(id, self.entities[p].dirty_components.as_slice());
                    proof {
                        let prev = answers;
                        answers = answers.push(u);
                        assert(answers.drop_last() =~= prev);
                        lemma_somes_len(prev);
                    }
                    match u {
                        Some(u) => {
                            updates.push(u);
                        },
                        None => {},
                    }
                }
            }
            i = i + 1;
        }
        assert(rr.take(relevant@.len() as int) =~= rr);
        let mut destroys = delta_destroys(
            st.known_entities.as_slice(),
            relevant,
            self.removed_entities.as_slice(),
        );
        apply_budget(&mut creates, &mut updates, &mut destroys, st.budget);
        let ghost dk = id_keys(destroys@);
        proof {
            let full = destroys_of(kn, rr, rem);
            lemma_destroys_increasing(kn, rr, rem);
            assert(dk == full.take(vstd::math::min(full.len() as int, cs_budget.max_destroys as int)));
            assert(increasing(dk));
        }
        let mut j: usize = 0;
        assert(dk.take(0) =~= Seq::<u32>::empty());
        while j < destroys.len()
            invariant
                j <= destroys@.len(),
                dk == id_keys(destroys@),
                increasing(id_keys(st.known_entities@)),
                id_keys(st.known_entities@) == remove_all(kn, dk.take(j as int)),
                st.id == cs_id,
                st.budget == cs_budget,
            decreases destroys@.len() - j,
        {
            assert(dk.take(j + 1).drop_last() =~= dk.take(j as int));
            assert(dk.take(j + 1).last() == destroys@[j as int]@);
            remove_id(&mut st.known_entities, destroys[j]);
            j = j + 1;
        }
        assert(dk.take(destroys@.len() as int) =~= dk);
        let ghost ck = snapshot_ids(creates@);
        let ghost mid = id_keys(st.known_entities@);
        let mut j: usize = 0;
        assert(ck.take(0) =~= Seq::<u32>::empty());
        while j < creates.len()
            invariant
                j <= creates@.len(),
                ck == snapshot_ids(creates@),
                increasing(id_keys(st.known_entities@)),
                id_keys(st.known_entities@) == insert_all(mid, ck.take(j as int)),
                st.id == cs_id,
                st.budget == cs_budget,
            decreases creates@.len() - j,
        {
            assert(ck.take(j + 1).drop_last() =~= ck.take(j as int));
            assert(ck.take(j + 1).last() == creates@[j as int].id@);
            insert_id(&mut st.known_entities, creates[j].id);
            j = j + 1;
        }
        assert(ck.take(creates@.len() as int) =~= ck);
        self.clients.insert(k, st);
        proof {
            let u = cs.update(k as int, (cs[k as int].0, cs[k as int].1, insert_all(remove_all(kn, dk), ck)));
            assert(self.clients_view() =~= u);
            assert forall|a: int| 0 <= a < u.len() implies increasing(#[trigger] u[a].2) by {
                if a != k {
                    assert(u[a] == cs[a]);
                }
            }
            assert forall|a: int, b: int| 0 <= a < b < u.len() implies #[trigger] u[a].0 != #[trigger] u[b].0 by {
                assert(u[a].0 == cs[a].0 && u[b].0 == cs[b].0);
            }
        }
        (ClientDelta { creates, destroys, updates }, Ghost((snaps, answers)))
    }

    /// Builds the changes for one client from the ids relevant to it:
    /// creates for relevant entities it does not know, updates for known
    /// relevant entities with dirty components (when the world gives one),
    /// destroys for known entities no longer relevant or removed, each cut
    /// to the client's budget; the client then knows what it was sent. An
    /// unknown client gets an empty delta.
    pub fn build_client_delta<W: WorldView>(&mut self, client: ClientId, relevant: &[EntityId], world: &W) -> (d: ClientDelta)
        requires
            old(self).wf(),
        ensures
            final(self).wf(),
            final(self).entities_view() == old(self).entities_view(),
            final(self).removed_view() == old(self).removed_view(),
            final(self).cfg() == old(self).cfg(),
            ({
                let cs = old(self).clients_view();
                let k = client_at(cs, client.0, 0);
                if k >= cs.len() {
                    &&& final(self).clients_view() == cs
                    &&& d.creates@.len() == 0
                    &&& d.destroys@.len() == 0
                    &&& d.updates@.len() == 0
                } else {
                    let st = cs[k as int];
                    let rr = id_keys(relevant@);
                    let ds = destroys_of(st.2, rr, old(self).removed_view());
                    let cr = creates_of(st.2, rr);
                    let up = updates_of(st.2, rr, old(self).entities_view());
                    &&& id_keys(d.destroys@) == ds.take(vstd::math::min(ds.len() as int, st.1.max_destroys as int))
                    &&& increasing(id_keys(d.destroys@))
                    &&& d.creates@.len() == vstd::math::min(cr.len() as int, st.1.max_creates as int)
                    &&& d.updates@.len() <= vstd::math::min(up.len() as int, st.1.max_updates as int)
                    &&& final(self).clients_view() == cs.update(
                        k as int,
                        (st.0, st.1, insert_all(remove_all(st.2, id_keys(d.destroys@)), snapshot_ids(d.creates@))),
                    )
                }
            }),
    {
        let (d, _answers) = self.build_client_delta_traced(client, relevant, world);
        d
    }
}

} // verus!
