//! A bounded history of baselines keyed by tick.
use super::types::SnapshotTick;
use vstd::prelude::*;

verus! {

/// Why an insert into the baseline store was refused.
#[derive(Debug, Clone, Copy, PartialEq, Eq, Structural)]
pub enum BaselineError {
    /// Ticks must be strictly increasing.
    OutOfOrder { last_tick: SnapshotTick, new_tick: SnapshotTick },
}

struct Entry<T> {
    tick: SnapshotTick,
    value: T,
}

/// A fixed-capacity ring buffer of baselines keyed by tick, oldest first.
pub struct BaselineStore<T> {
    entries: Vec<Option<Entry<T>>>,
    head: usize,
    len: usize,
    last_tick: Option<SnapshotTick>,
}

/// Ticks of a baseline history strictly increase.
pub open spec fn ticks_increasing<T>(s: Seq<(SnapshotTick, T)>) -> bool {
    forall|i: int, j: int| 0 <= i < j < s.len() ==> s[i].0@ < s[j].0@
}

/// The history after inserting `(t, v)` into a store of capacity `cap`:
/// appended, and the oldest entry dropped when the store was full.
pub open spec fn inserted<T>(s: Seq<(SnapshotTick, T)>, cap: nat, t: SnapshotTick, v: T) -> Seq<(SnapshotTick, T)> {
    if s.len() < cap {
        s.push((t, v))
    } else {
        s.drop_first().push((t, v))
    }
}

/// Index of the oldest entry with tick `t`, searching from `i`.
pub open spec fn tick_from<T>(s: Seq<(SnapshotTick, T)>, t: SnapshotTick, i: nat) -> Option<nat>
    decreases s.len() - i,
{
    if i >= s.len() {
        None
    } else if s[i as int].0@ == t@ {
        Some(i)
    } else {
        tick_from(s, t, i + 1)
    }
}

/// Index of the newest entry among the first `n` whose tick is at or before `t`.
pub open spec fn latest_before<T>(s: Seq<(SnapshotTick, T)>, t: SnapshotTick, n: nat) -> Option<nat>
    decreases n,
{
    if n == 0 {
        None
    } else if s[n - 1].0@ <= t@ {
        Some((n - 1) as nat)
    } else {
        latest_before(s, t, (n - 1) as nat)
    }
}

impl<T> BaselineStore<T> {
    /// Position in `entries` of the `i`-th oldest entry.
    spec fn slot(&self, i: int) -> int {
        if self.head + i < self.entries@.len() {
            self.head + i
        } else {
            self.head + i - self.entries@.len()
        }
    }

    /// The store's maximum number of entries.
    pub closed spec fn cap(&self) -> nat {
        self.entries@.len()
    }

    /// The store's internal invariant.
    pub closed spec fn wf(&self) -> bool {
        &&& self.entries@.len() > 0
        &&& self.head < self.entries@.len()
        &&& self.len <= self.entries@.len()
        &&& forall|i: int| 0 <= i < self.len ==> (#[trigger] self.entries@[self.slot(i)]) is Some
        &&& ticks_increasing(self@)
        &&& self.last_tick == (if self.len == 0 {
            None
        } else {
            Some(self@.last().0)
        })
    }
}

impl<T> BaselineStore<T> {
    /// Position in `entries` of the `i`-th oldest entry.
    fn slot_index(&self, i: usize) -> (r: usize)
        requires
            self.head < self.entries@.len(),
            i <= self.entries@.len(),
        ensures
            r == self.slot(i as int),
    {
        let cap = self.entries.len();
        if i < cap - self.head {
            self.head + i
        } else {
            i - (cap - self.head)
        }
    }
}

impl<T> View for BaselineStore<T> {
    type V = Seq<(SnapshotTick, T)>;

    /// The stored baselines, oldest first.
    closed spec fn view(&self) -> Seq<(SnapshotTick, T)> {
        Seq::new(
            self.len as nat,
            |i: int|
                {
                    let e = self.entries@[self.slot(i)]->Some_0;
                    (e.tick, e.value)
                },
        )
    }
}

impl<T> BaselineStore<T> {
    /// Creates an empty store holding at most `capacity` baselines.
    pub fn new(capacity: usize) -> (r: Self)
        requires
            capacity > 0,
        ensures
            r.wf(),
            r@ == Seq::<(SnapshotTick, T)>::empty(),
            r.cap() == capacity,
    {
        let mut entries: Vec<Option<Entry<T>>> = Vec::new();
        let mut i: usize = 0;
        while i < capacity
            invariant
                i <= capacity,
                entries@.len() == i,
            decreases capacity - i,
        {
            entries.push(None);
            i = i + 1;
        }
        let r = BaselineStore { entries, head: 0, len: 0, last_tick: None };
        assert(r@ =~= Seq::<(SnapshotTick, T)>::empty());
        r
    }

    /// A well-formed store holds its baselines in strictly increasing tick
    /// order.
    pub proof fn lemma_ticks_increasing(&self)
        requires
            self.wf(),
        ensures
            ticks_increasing(self@),
    {
    }

    /// The maximum number of baselines held.
    pub fn capacity(&self) -> (r: usize)
        ensures
            r == self.cap(),
    {
        self.entries.len()
    }

    /// The number of baselines held.
    pub fn len(&self) -> (r: usize)
        requires
            self.wf(),
        ensures
            r == self@.len(),
    {
        self.len
    }

    /// Returns `true` when no baseline is held.
    pub fn is_empty(&self) -> (r: bool)
        requires
            self.wf(),
        ensures
            r == (self@.len() == 0),
    {
        self.len == 0
    }

    /// Inserts a baseline at `tick`, which must be newer than every stored
    /// tick. When the store is full the oldest baseline is dropped.
    pub fn insert(&mut self, tick: SnapshotTick, value: T) -> (r: Result<(), BaselineError>)
        requires
            old(self).wf(),
        ensures
            final(self).wf(),
            final(self).cap() == old(self).cap(),
            ticks_increasing(final(self)@),
            old(self)@.len() > 0 && tick@ <= old(self)@.last().0@ ==> r == Err::<(), BaselineError>(
                BaselineError::OutOfOrder { last_tick: old(self)@.last().0, new_tick: tick },
            ) && final(self)@ == old(self)@,
            !(old(self)@.len() > 0 && tick@ <= old(self)@.last().0@) ==> r is Ok && final(self)@ == inserted(
                old(self)@,
                old(self).cap(),
                tick,
                value,
            ),
    {
        if let Some(last) = self.last_tick {
            if tick.raw() <= last.raw() {
                return Err(BaselineError::OutOfOrder { last_tick: last, new_tick: tick });
            }
        }
        let ghost old_view = self@;
        self.last_tick = Some(tick);
        let cap = self.entries.len();
        if self.len < cap {
            let idx = self.slot_index(self.len);
            self.entries.set(idx, Some(Entry { tick, value }));
            self.len = self.len + 1;
            proof {
                assert forall|i: int| 0 <= i < self.len implies (#[trigger] self.entries@[self.slot(i)]) is Some by {
                    if i < self.len - 1 {
                        assert(self.slot(i) != idx);
                        assert(old(self).entries@[old(self).slot(i)] is Some);
                    }
                }
                assert forall|i: int| 0 <= i < self.len - 1 implies #[trigger] self@[i] == old_view[i] by {
                    assert(self.slot(i) != idx);
                }
                assert(self@ =~= old_view.push((tick, value)));
            }
        } else {
            let h = self.head;
            self.entries.set(h, Some(Entry { tick, value }));
            self.head = if h + 1 < cap {
                h + 1
            } else {
                0
            };
            proof {
                assert forall|i: int| 0 <= i < self.len implies (#[trigger] self.entries@[self.slot(i)]) is Some by {
                    if self.slot(i) != h {
                        assert(self.slot(i) == old(self).slot(i + 1));
                        assert(old(self).entries@[old(self).slot(i + 1)] is Some);
                    }
                }
                assert forall|i: int| 0 <= i < self.len - 1 implies #[trigger] self@[i] == old_view[i + 1] by {
                    assert(self.slot(i) == old(self).slot(i + 1));
                    assert(self.slot(i) != h);
                }
                assert(self.slot(self.len - 1) == h);
                assert(self@ =~= old_view.drop_first().push((tick, value)));
            }
        }
        proof {
            lemma_insert_keeps_order(old_view, cap as nat, tick, value);
            assert(self@.last() == (tick, value));
        }
        Ok(())
    }

    /// The baseline stored at exactly `tick`.
    pub fn get(&self, tick: SnapshotTick) -> (r: Option<&T>)
        requires
            self.wf(),
        ensures
            ticks_increasing(self@),
            match tick_from(self@, tick, 0) {
                Some(i) => r == Some(&self@[i as int].1),
                None => r is None,
            },
    {
        let cap = self.entries.len();
        let mut i: usize = 0;
        while i < self.len
            invariant
                self.wf(),
                cap == self.entries@.len(),
                i <= self.len,
                tick_from(self@, tick, 0) == tick_from(self@, tick, i as nat),
            decreases self.len - i,
        {
            let idx = self.slot_index(i);
            assert(self.entries@[self.slot(i as int)] is Some);
            match &self.entries[idx] {
                Some(entry) => {
                    if entry.tick.raw() == tick.raw() {
                        return Some(&entry.value);
                    }
                },
                None => {},
            }
            i = i + 1;
        }
        None
    }

    /// The newest baseline whose tick is at or before `tick`.
    pub fn latest_at_or_before(&self, tick: SnapshotTick) -> (r: Option<(SnapshotTick, &T)>)
        requires
            self.wf(),
        ensures
            ticks_increasing(self@),
            match latest_before(self@, tick, self@.len()) {
                Some(i) => r == Some((self@[i as int].0, &self@[i as int].1)),
                None => r is None,
            },
    {
        let cap = self.entries.len();
        let mut n: usize = self.len;
        while n > 0
            invariant
                self.wf(),
                cap == self.entries@.len(),
                n <= self.len,
                latest_before(self@, tick, self@.len()) == latest_before(self@, tick, n as nat),
            decreases n,
        {
            let i = n - 1;
            let idx = self.slot_index(i);
            assert(self.entries@[self.slot(i as int)] is Some);
            match &self.entries[idx] {
                Some(entry) => {
                    if entry.tick.raw() <= tick.raw() {
                        return Some((entry.tick, &entry.value));
                    }
                },
                None => {},
            }
            n = i;
        }
        None
    }

    /// The stored baselines, oldest first.
    pub fn iter(&self) -> (r: Vec<(SnapshotTick, &T)>)
        requires
            self.wf(),
        ensures
            ticks_increasing(self@),
            r@.len() == self@.len(),
            forall|i: int| 0 <= i < r@.len() ==> #[trigger] r@[i] == (self@[i].0, &self@[i].1),
    {
        let cap = self.entries.len();
        let mut out: Vec<(SnapshotTick, &T)> = Vec::new();
        let mut i: usize = 0;
        while i < self.len
            invariant
                self.wf(),
                cap == self.entries@.len(),
                i <= self.len,
                out@.len() == i,
                forall|k: int| 0 <= k < i ==> #[trigger] out@[k] == (self@[k].0, &self@[k].1),
            decreases self.len - i,
        {
            let idx = self.slot_index(i);
            assert(self.entries@[self.slot(i as int)] is Some);
            match &self.entries[idx] {
                Some(entry) => {
                    out.push((entry.tick, &entry.value));
                },
                None => {},
            }
            i = i + 1;
        }
        out
    }
}

/// The tick of the newest baseline at or before the acknowledged tick.
pub fn select_baseline_tick<T>(store: &BaselineStore<T>, ack_tick: SnapshotTick) -> (r: Option<SnapshotTick>)
    requires
        store.wf(),
    ensures
        ticks_increasing(store@),
        match latest_before(store@, ack_tick, store@.len()) {
            Some(i) => r == Some(store@[i as int].0),
            None => r is None,
        },
{
    match store.latest_at_or_before(ack_tick) {
        Some((tick, _)) => Some(tick),
        None => None,
    }
}

// ---------------------------------------------------------------------------
// Laws of the store.
/// A successful insert makes the inserted baseline the one found at its tick.
pub proof fn lemma_get_after_insert<T>(s: Seq<(SnapshotTick, T)>, cap: nat, t: SnapshotTick, v: T)
    requires
        ticks_increasing(s),
        cap > 0,
        s.len() <= cap,
        s.len() > 0 ==> s.last().0@ < t@,
    ensures
        tick_from(inserted(s, cap, t, v), t, 0) == Some((inserted(s, cap, t, v).len() - 1) as nat),
        inserted(s, cap, t, v).last() == (t, v),
{
    let s2 = inserted(s, cap, t, v);
    assert forall|i: int| 0 <= i < s2.len() - 1 implies s2[i].0@ < t@ by {
        if s.len() < cap {
            assert(s2[i] == s[i]);
        } else {
            assert(s2[i] == s[i + 1]);
        }
        assert(s.last() == s[s.len() - 1]);
        if s.len() < cap {
            if i < s.len() - 1 {
                assert(s[i].0@ < s[s.len() - 1].0@);
            }
        } else if i + 1 < s.len() - 1 {
            assert(s[i + 1].0@ < s[s.len() - 1].0@);
        }
    }
    lemma_tick_first(s2, t, 0, (s2.len() - 1) as nat);
}

proof fn lemma_tick_first<T>(s: Seq<(SnapshotTick, T)>, t: SnapshotTick, i: nat, m: nat)
    requires
        i <= m < s.len(),
        s[m as int].0@ == t@,
        forall|x: int| i <= x < m ==> s[x].0@ < t@,
    ensures
        tick_from(s, t, i) == Some(m),
    decreases m - i,
{
    if i < m {
        lemma_tick_first(s, t, i + 1, m);
    }
}

/// A store never holds more baselines than its capacity, and an insert into
/// a full store drops exactly the oldest baseline.
pub proof fn lemma_insert_bounded<T>(s: Seq<(SnapshotTick, T)>, cap: nat, t: SnapshotTick, v: T)
    requires
        s.len() <= cap,
        cap > 0,
    ensures
        inserted(s, cap, t, v).len() <= cap,
        s.len() < cap ==> inserted(s, cap, t, v).len() == s.len() + 1,
        s.len() == cap ==> inserted(s, cap, t, v).len() == cap && inserted(s, cap, t, v).drop_last() =~= s.drop_first(),
        s.len() < cap ==> inserted(s, cap, t, v).drop_last() =~= s,
{
}

/// Inserting a newer tick keeps ticks strictly increasing.
pub proof fn lemma_insert_keeps_order<T>(s: Seq<(SnapshotTick, T)>, cap: nat, t: SnapshotTick, v: T)
    requires
        ticks_increasing(s),
        cap > 0,
        s.len() <= cap,
        s.len() > 0 ==> s.last().0@ < t@,
    ensures
        ticks_increasing(inserted(s, cap, t, v)),
{
    let s2 = inserted(s, cap, t, v);
    let kept = if s.len() < cap {
        s
    } else {
        s.drop_first()
    };
    assert(s2 == kept.push((t, v)));
    assert forall|i: int| 0 <= i < kept.len() implies #[trigger] kept[i].0@ < t@ by {
        assert(s.last() == s[s.len() - 1]);
        let k = if s.len() < cap {
            i
        } else {
            i + 1
        };
        assert(kept[i] == s[k]);
        if k < s.len() - 1 {
            assert(s[k].0@ < s[s.len() - 1].0@);
        }
    }
    assert forall|i: int, j: int| 0 <= i < j < s2.len() implies s2[i].0@ < s2[j].0@ by {
        assert(s2[i] == kept[i]);
        if j < kept.len() {
            assert(s2[j] == kept[j]);
            if s.len() >= cap {
                assert(kept[i] == s[i + 1] && kept[j] == s[j + 1]);
            }
        } else {
            assert(kept[i].0@ < t@);
        }
    }
}

/// The baseline picked for an acknowledged tick is the newest one at or
/// before it: no stored baseline lies after it and at or before the tick.
pub proof fn lemma_latest_is_newest<T>(s: Seq<(SnapshotTick, T)>, t: SnapshotTick, n: nat)
    requires
        n <= s.len(),
    ensures
        latest_before(s, t, n) matches Some(i) ==> i < n && s[i as int].0@ <= t@ && forall|j: int|
            i < j < n ==> s[j].0@ > t@,
        latest_before(s, t, n) is None ==> forall|j: int| 0 <= j < n ==> s[j].0@ > t@,
    decreases n,
{
    if n > 0 {
        lemma_latest_is_newest(s, t, (n - 1) as nat);
    }
}

/// In a history with increasing ticks, the baseline picked for a query tick
/// has the greatest stored tick at or before it, and none is picked exactly
/// when every stored tick is after it.
pub proof fn lemma_latest_is_greatest<T>(s: Seq<(SnapshotTick, T)>, t: SnapshotTick)
    requires
        ticks_increasing(s),
    ensures
        latest_before(s, t, s.len()) matches Some(i) ==> i < s.len() && s[i as int].0@ <= t@ && forall|j: int|
            0 <= j < s.len() && s[j].0@ <= t@ ==> s[j].0@ <= s[i as int].0@,
        latest_before(s, t, s.len()) is None <==> forall|j: int| 0 <= j < s.len() ==> s[j].0@ > t@,
{
    lemma_latest_is_newest(s, t, s.len());
    if let Some(i) = latest_before(s, t, s.len()) {
        assert forall|j: int| 0 <= j < s.len() && s[j].0@ <= t@ implies s[j].0@ <= s[i as int].0@ by {
            if j > i {
                assert(s[j].0@ > t@);
            } else if j < i {
                assert(s[j].0@ < s[i as int].0@);
            }
        }
        assert(!(forall|j: int| 0 <= j < s.len() ==> s[j].0@ > t@)) by {
            assert(s[i as int].0@ <= t@);
        }
    }
}

} // verus!
