//! The demo simulation: entities moving within the demo schema's bounds,
//! stepped by a seeded linear congruential generator, and the snapshot each
//! client sees of them.
use crate::codec::{entities_view, entity_id_of, EntitySnapshot, EntityV, Snapshot, SnapshotTick};
use crate::demo_schema::{
    demo_entity, insert_by_id, insert_point, lemma_sort_by_id, sort_by_id, DemoEntityState, POS_MAX, POS_MIN, VEL_MAX,
    VEL_MIN,
};
use vstd::prelude::*;

verus! {

/// Radius within which a client sees other entities, quantized.
pub const VIS_RADIUS: i64 = 30_000;

/// The generator's multiplier.
pub const LCG_MUL: u64 = 6364136223846793005;

/// The generator state after one step: multiply, then add one, both
/// wrapping.
pub open spec fn lcg(s: u64) -> u64 {
    let m = ((s as nat * LCG_MUL as nat) % 0x1_0000_0000_0000_0000) as u64;
    if m == u64::MAX {
        0
    } else {
        (m + 1) as u64
    }
}

/// What a step that leads to state `s` yields: its upper 32 bits.
pub open spec fn lcg_out(s: u64) -> u32 {
    (s / 0x1_0000_0000) as u32
}

/// The generator state after `n` steps from `s`.
pub open spec fn lcg_n(s: u64, n: nat) -> u64
    decreases n,
{
    if n == 0 {
        s
    } else {
        lcg(lcg_n(s, (n - 1) as nat))
    }
}

/// The `n`-th value (from one) the generator yields from state `s`.
pub open spec fn draw(s: u64, n: nat) -> u32 {
    lcg_out(lcg_n(s, n))
}

/// The size of the range a draw is mapped into: `|max - min|`, at least
/// one, plus one.
pub open spec fn span(min: i64, max: i64) -> int {
    let d = max - min;
    let a = if d < 0 {
        -d
    } else {
        d
    };
    (if a < 1 {
        1
    } else {
        a
    }) + 1
}

/// A draw `x` mapped into the range from `min`.
pub open spec fn range_value(min: i64, max: i64, x: u32) -> int {
    min + (x as int % span(min, max))
}

/// Bounds under which mapping a draw into a range does not overflow.
pub open spec fn range_ok(min: i64, max: i64) -> bool {
    &&& i64::MIN <= max - min <= i64::MAX
    &&& min + span(min, max) - 1 <= i64::MAX
}

/// `v` clamped to `lo..=hi`: first capped at `hi`, then raised to `lo`.
pub open spec fn clamp_spec(v: int, lo: int, hi: int) -> int {
    let a = if v <= hi {
        v
    } else {
        hi
    };
    if a >= lo {
        a
    } else {
        lo
    }
}

/// A deterministic pseudo-random generator.
pub struct Rng {
    pub state: u64,
}

impl Rng {
    /// A generator seeded with `seed`.
    pub fn new(seed: u64) -> (r: Self)
        ensures
            r.state == seed,
    {
        Rng { state: seed }
    }

    /// Steps the generator and yields the upper half of its new state.
    pub fn next_u32(&mut self) -> (r: u32)
        ensures
            final(self).state == lcg(old(self).state),
            r == lcg_out(final(self).state),
    {
        self.state = self.state.wrapping_mul(LCG_MUL).wrapping_add(1);
        let s = self.state;
        assert(s >> 32u64 == s / 0x1_0000_0000) by (bit_vector);
        (self.state >> 32) as u32
    }

    /// A value from `min` on, a draw taken modulo the range's size.
    pub fn range_i64(&mut self, min: i64, max: i64) -> (r: i64)
        requires
            range_ok(min, max),
        ensures
            final(self).state == lcg(old(self).state),
            r == range_value(min, max, lcg_out(final(self).state)),
    {
        let d: i64 = max - min;
        let a: u64 = if d < 0 {
            (-(d as i128)) as u64
        } else {
            d as u64
        };
        let sp: u64 = if a < 1 {
            1
        } else {
            a
        } + 1;
        let value: u64 = (self.next_u32() as u64) % sp;
        min + value as i64
    }
}

/// `value` capped at `max`, then raised to `min`.
pub fn clamp(value: i64, min: i64, max: i64) -> (r: i64)
    ensures
        r == clamp_spec(value as int, min as int, max as int),
{
    let a = if value <= max {
        value
    } else {
        max
    };
    if a >= min {
        a
    } else {
        min
    }
}

/// Entity `i` as the demo starts it, from the generator state `s` before
/// the first entity: seven draws per entity, three for its position, three
/// for its velocity and one for its heading, all flags off.
pub open spec fn is_initial(st: DemoEntityState, s: u64, i: nat) -> bool {
    let b = 7 * i;
    &&& st.id == entity_id_of((i + 1) as u32)
    &&& st.pos_q[0] == range_value((POS_MIN / 2) as i64, (POS_MAX / 2) as i64, draw(s, b + 1))
    &&& st.pos_q[1] == range_value((POS_MIN / 2) as i64, (POS_MAX / 2) as i64, draw(s, b + 2))
    &&& st.pos_q[2] == range_value((POS_MIN / 2) as i64, (POS_MAX / 2) as i64, draw(s, b + 3))
    &&& st.vel_q[0] == range_value((VEL_MIN / 10) as i64, (VEL_MAX / 10) as i64, draw(s, b + 4))
    &&& st.vel_q[1] == range_value((VEL_MIN / 10) as i64, (VEL_MAX / 10) as i64, draw(s, b + 5))
    &&& st.vel_q[2] == range_value((VEL_MIN / 10) as i64, (VEL_MAX / 10) as i64, draw(s, b + 6))
    &&& st.yaw == draw(s, b + 7) % 4096
    &&& !st.flags[0] && !st.flags[1] && !st.flags[2]
}

/// Positions and velocities within the demo schema's bounds.
pub open spec fn in_bounds(st: DemoEntityState) -> bool {
    &&& forall|a: int| 0 <= a < 3 ==> POS_MIN <= #[trigger] st.pos_q[a] <= POS_MAX
    &&& forall|a: int| 0 <= a < 3 ==> VEL_MIN <= #[trigger] st.vel_q[a] <= VEL_MAX
}

/// A range draw as the generator yields it.
fn draw_range(rng: &mut Rng, min: i64, max: i64, Ghost(s0): Ghost<u64>, Ghost(m): Ghost<nat>) -> (r: i64)
    requires
        range_ok(min, max),
        old(rng).state == lcg_n(s0, m),
    ensures
        final(rng).state == lcg_n(s0, m + 1),
        r == range_value(min, max, draw(s0, m + 1)),
{
    rng.range_i64(min, max)
}

/// The demo's entities at the start: ids from one, positions within half
/// the bounds, velocities within a tenth of them, headings below 4096.
pub fn init_states(players: u32, rng: &mut Rng) -> (r: Vec<DemoEntityState>)
    ensures
        r@.len() == players,
        forall|i: int| 0 <= i < players ==> #[trigger] is_initial(r@[i], old(rng).state, i as nat) && in_bounds(r@[i]),
        final(rng).state == lcg_n(old(rng).state, 7 * players as nat),
{
    let ghost s0 = rng.state;
    let mut states: Vec<DemoEntityState> = Vec::new();
    let mut idx: u32 = 0;
    while idx < players
        invariant
            idx <= players,
            states@.len() == idx,
            rng.state == lcg_n(s0, 7 * idx as nat),
            forall|i: int| 0 <= i < idx ==> #[trigger] is_initial(states@[i], s0, i as nat) && in_bounds(states@[i]),
        decreases players - idx,
    {
        let ghost b = 7 * idx as nat;
        let id = crate::codec::EntityId::new(idx + 1);
        let p0 = draw_range(rng, POS_MIN / 2, POS_MAX / 2, Ghost(s0), Ghost(b));
        let p1 = draw_range(rng, POS_MIN / 2, POS_MAX / 2, Ghost(s0), Ghost(b + 1));
        let p2 = draw_range(rng, POS_MIN / 2, POS_MAX / 2, Ghost(s0), Ghost(b + 2));
        let v0 = draw_range(rng, VEL_MIN / 10, VEL_MAX / 10, Ghost(s0), Ghost(b + 3));
        let v1 = draw_range(rng, VEL_MIN / 10, VEL_MAX / 10, Ghost(s0), Ghost(b + 4));
        let v2 = draw_range(rng, VEL_MIN / 10, VEL_MAX / 10, Ghost(s0), Ghost(b + 5));
        let y = rng.next_u32();
        let yaw = (y % 4096) as u16;
        let st = DemoEntityState { id, pos_q: [p0, p1, p2], vel_q: [v0, v1, v2], yaw, flags: [false, false, false] };
        proof {
            assert(rng.state == lcg_n(s0, b + 7));
            assert(is_initial(st, s0, idx as nat));
            assert(in_bounds(st));
        }
        states.push(st);
        idx = idx + 1;
    }
    states
}

/// One axis of an entity's step from generator state `s`: its position,
/// velocity and the generator state after it. One time in twenty the
/// velocity takes a nudge of at most 50 either way, within the velocity
/// bounds; the position moves by the velocity within the position bounds,
/// and the velocity turns around at a bound.
pub open spec fn step_axis(pos: int, vel: int, s: u64) -> (int, int, u64) {
    let s1 = lcg(s);
    let nudged = lcg_out(s1) % 20 == 0;
    let s2 = if nudged {
        lcg(s1)
    } else {
        s1
    };
    let v1 = if nudged {
        clamp_spec(vel + range_value(-50i64, 50i64, lcg_out(s2)), VEL_MIN as int, VEL_MAX as int)
    } else {
        vel
    };
    let p = clamp_spec(pos + v1, POS_MIN as int, POS_MAX as int);
    let v2 = if p == POS_MIN || p == POS_MAX {
        -v1
    } else {
        v1
    };
    (p, v2, s2)
}

/// Whether tick `tick` is a burst tick.
pub open spec fn burst_at(tick: u32, burst: Option<u32>) -> bool {
    match burst {
        Some(every) => every > 0 && tick % every == 0,
        None => false,
    }
}

/// The generator state after the three axes of an entity's step.
pub open spec fn axes_end(st: DemoEntityState, s: u64) -> u64 {
    let a0 = step_axis(st.pos_q[0] as int, st.vel_q[0] as int, s);
    let a1 = step_axis(st.pos_q[1] as int, st.vel_q[1] as int, a0.2);
    step_axis(st.pos_q[2] as int, st.vel_q[2] as int, a1.2).2
}

/// The generator state after an entity's step: its axes, then one draw for
/// the heading and one for the last flag.
pub open spec fn step_end(st: DemoEntityState, s: u64) -> u64 {
    lcg(lcg(axes_end(st, s)))
}

/// `new` is `old` after one step from generator state `s`: each axis as
/// `step_axis`; the heading turned by a draw below 13; on a burst tick the
/// first two flags toggled and the heading turned by 97 more; the last flag
/// toggled one time in fifty.
pub open spec fn is_step(old: DemoEntityState, new: DemoEntityState, s: u64, burst: bool) -> bool {
    let a0 = step_axis(old.pos_q[0] as int, old.vel_q[0] as int, s);
    let a1 = step_axis(old.pos_q[1] as int, old.vel_q[1] as int, a0.2);
    let a2 = step_axis(old.pos_q[2] as int, old.vel_q[2] as int, a1.2);
    let sy = lcg(a2.2);
    let yaw1 = (old.yaw + lcg_out(sy) % 13) % 4096;
    let yaw2 = if burst {
        (yaw1 + 97) % 4096
    } else {
        yaw1
    };
    let sf = lcg(sy);
    &&& new.id == old.id
    &&& new.pos_q[0] == a0.0 && new.vel_q[0] == a0.1
    &&& new.pos_q[1] == a1.0 && new.vel_q[1] == a1.1
    &&& new.pos_q[2] == a2.0 && new.vel_q[2] == a2.1
    &&& new.yaw == yaw2
    &&& new.flags[0] == (old.flags[0] != burst)
    &&& new.flags[1] == (old.flags[1] != burst)
    &&& new.flags[2] == (old.flags[2] != (lcg_out(sf) % 50 == 0))
}

/// The generator state before entity `k` of a step from state `s`.
pub open spec fn rng_at(states: Seq<DemoEntityState>, s: u64, k: nat) -> u64
    decreases k,
{
    if k == 0 {
        s
    } else {
        step_end(states[k - 1], rng_at(states, s, (k - 1) as nat))
    }
}

/// An axis whose step cannot overflow `i64`, whatever the generator draws:
/// the velocity takes a nudge of up to 50 either way and can be negated, and
/// the position moves by the velocity as it is or as clamped.
pub open spec fn axis_safe(pos: i64, vel: i64) -> bool {
    &&& i64::MIN + 50 <= vel <= i64::MAX - 50
    &&& i64::MIN <= pos + vel <= i64::MAX
    &&& i64::MIN <= pos + VEL_MIN
    &&& pos + VEL_MAX <= i64::MAX
}

/// Every axis of an entity can step without overflow.
pub open spec fn state_safe(st: DemoEntityState) -> bool {
    forall|a: int| 0 <= a < 3 ==> axis_safe(#[trigger] st.pos_q[a], st.vel_q[a])
}

/// Positions within the demo schema's bounds.
pub open spec fn pos_in_bounds(st: DemoEntityState) -> bool {
    forall|a: int| 0 <= a < 3 ==> POS_MIN <= #[trigger] st.pos_q[a] <= POS_MAX
}

fn step_axis_exec(pos: i64, vel: i64, rng: &mut Rng) -> (r: (i64, i64))
    requires
        axis_safe(pos, vel),
    ensures
        (r.0 as int, r.1 as int, final(rng).state) == step_axis(pos as int, vel as int, old(rng).state),
        POS_MIN <= r.0 <= POS_MAX,
        VEL_MIN <= vel <= VEL_MAX ==> VEL_MIN <= r.1 <= VEL_MAX,
{
    let mut v = vel;
    if rng.next_u32() % 20 == 0 {
        let delta = rng.range_i64(-50, 50);
        v = clamp(v + delta, VEL_MIN, VEL_MAX);
    }
    let p = clamp(pos + v, POS_MIN, POS_MAX);
    if p == POS_MIN || p == POS_MAX {
        v = -v;
    }
    (p, v)
}

fn step_state(st: &DemoEntityState, rng: &mut Rng, burst: bool) -> (r: DemoEntityState)
    requires
        state_safe(*st),
    ensures
        is_step(*st, r, old(rng).state, burst),
        final(rng).state == step_end(*st, old(rng).state),
        in_bounds(*st) ==> in_bounds(r),
        pos_in_bounds(r),
{
    let pos = st.pos_q;
    let vel = st.vel_q;
    assert(axis_safe(pos[0], vel[0]) && axis_safe(pos[1], vel[1]) && axis_safe(pos[2], vel[2]));
    let (p0, v0) = step_axis_exec(pos[0], vel[0], rng);
    let (p1, v1) = step_axis_exec(pos[1], vel[1], rng);
    let (p2, v2) = step_axis_exec(pos[2], vel[2], rng);
    let turn = rng.next_u32() % 13;
    let mut yaw = ((st.yaw as u32 + turn) % 4096) as u16;
    let mut flags = st.flags;
    if burst {
        flags = [!flags[0], !flags[1], flags[2]];
        yaw = ((yaw as u32 + 97) % 4096) as u16;
    }
    if rng.next_u32() % 50 == 0 {
        flags = [flags[0], flags[1], !flags[2]];
    }
    let r = DemoEntityState { id: st.id, pos_q: [p0, p1, p2], vel_q: [v0, v1, v2], yaw, flags };
    assert(pos_in_bounds(r));
    assert(in_bounds(*st) ==> in_bounds(r));
    r
}

/// Steps every entity by one tick, in order, drawing from `rng`; tick
/// `tick` is a burst tick when it is a multiple of a non-zero `burst`.
/// Positions end within the demo schema's bounds; entities that were
/// within the bounds stay within them.
pub fn step_states(states: &mut [DemoEntityState], rng: &mut Rng, tick: u32, burst: Option<u32>)
    requires
        forall|i: int| 0 <= i < old(states)@.len() ==> state_safe(#[trigger] old(states)@[i]),
    ensures
        final(states)@.len() == old(states)@.len(),
        forall|i: int|
            0 <= i < old(states)@.len() ==> is_step(
                old(states)@[i],
                #[trigger] final(states)@[i],
                rng_at(old(states)@, old(rng).state, i as nat),
                burst_at(tick, burst),
            ) && pos_in_bounds(final(states)@[i]) && (in_bounds(old(states)@[i])
                ==> in_bounds(final(states)@[i])),
        final(rng).state == rng_at(old(states)@, old(rng).state, old(states)@.len() as nat),
{
    let burst_now = match burst {
        Some(every) => every > 0 && tick % every == 0,
        None => false,
    };
    let ghost s0 = rng.state;
    let ghost orig = states@;
    let n = states.len();
    let mut k: usize = 0;
    while k < n
        invariant
            n == orig.len(),
            states@.len() == n,
            k <= n,
            burst_now == burst_at(tick, burst),
            rng.state == rng_at(orig, s0, k as nat),
            forall|i: int| k <= i < n ==> #[trigger] states@[i] == orig[i],
            forall|i: int| 0 <= i < n ==> state_safe(#[trigger] orig[i]),
            forall|i: int|
                0 <= i < k ==> is_step(orig[i], #[trigger] states@[i], rng_at(orig, s0, i as nat), burst_now)
                    && pos_in_bounds(states@[i]) && (in_bounds(orig[i]) ==> in_bounds(states@[i])),
        decreases n - k,
    {
        let next = step_state(&states[k], rng, burst_now);
        states[k] = next;
        k = k + 1;
    }
}

/// The squared distance between two entities' positions.
pub open spec fn dist_sq(a: DemoEntityState, c: DemoEntityState) -> int {
    let dx = a.pos_q[0] - c.pos_q[0];
    let dy = a.pos_q[1] - c.pos_q[1];
    let dz = a.pos_q[2] - c.pos_q[2];
    dx * dx + dy * dy + dz * dz
}

/// A client centred on `center` sees `st`: itself, or any entity within
/// the visibility radius.
pub open spec fn visible(st: DemoEntityState, center: DemoEntityState) -> bool {
    st.id@ == center.id@ || dist_sq(st, center) <= VIS_RADIUS * VIS_RADIUS
}

/// The entities among the first `k` that a client centred on `center`
/// sees, in their order.
pub open spec fn visible_prefix(states: Seq<DemoEntityState>, center: DemoEntityState, k: nat) -> Seq<EntityV>
    decreases k,
{
    if k == 0 {
        Seq::empty()
    } else {
        let p = visible_prefix(states, center, (k - 1) as nat);
        if visible(states[k - 1], center) {
            p.push(demo_entity(states[k - 1]))
        } else {
            p
        }
    }
}

/// Inserts an entity after the entities whose id is at most its own.
fn insert_by_id_exec(entities: &mut Vec<EntitySnapshot>, e: EntitySnapshot)
    ensures
        entities_view(final(entities)@) == insert_by_id(entities_view(old(entities)@), e@),
{
    let ghost sorted = entities_view(entities@);
    let id = e.id.raw();
    let mut pos: usize = entities.len();
    while pos > 0 && entities[pos - 1].id.raw() > id
        invariant
            pos <= entities@.len(),
            sorted == entities_view(entities@),
            e@.0@ == id,
            insert_point(sorted, id, sorted.len()) == insert_point(sorted, id, pos as nat),
        decreases pos,
    {
        assert(sorted[pos - 1] == entities@[pos - 1]@);
        pos = pos - 1;
    }
    proof {
        if pos > 0 {
            assert(sorted[pos - 1] == entities@[pos - 1]@);
        }
    }
    let ghost before = entities@;
    entities.insert(pos, e);
    assert(entities_view(entities@) =~= entities_view(before).insert(pos as int, e@));
}

/// The snapshot a client sees at `tick`: its own entity and every entity
/// within the visibility radius of it, ordered by id.
pub fn build_visible_snapshot(tick: SnapshotTick, states: &[DemoEntityState], client_idx: usize) -> (r: Snapshot)
    requires
        client_idx < states@.len(),
        forall|i: int| 0 <= i < states@.len() ==> dist_sq(#[trigger] states@[i], states@[client_idx as int]) <= i128::MAX,
    ensures
        r.tick == tick,
        entities_view(r.entities@) == sort_by_id(visible_prefix(states@, states@[client_idx as int], states@.len() as nat)),
{
    let client_state = &states[client_idx];
    let center = client_state.pos_q;
    let center_id = client_state.id;
    let ghost cs = states@[client_idx as int];
    let radius_sq: i128 = (VIS_RADIUS as i128) * (VIS_RADIUS as i128);
    let mut entities: Vec<EntitySnapshot> = Vec::new();
    let n = states.len();
    let mut k: usize = 0;
    while k < n
        invariant
            n == states@.len(),
            k <= n,
            cs == states@[client_idx as int],
            center == cs.pos_q,
            center_id == cs.id,
            radius_sq == VIS_RADIUS * VIS_RADIUS,
            forall|i: int| 0 <= i < states@.len() ==> dist_sq(#[trigger] states@[i], cs) <= i128::MAX,
            entities_view(entities@) == sort_by_id(visible_prefix(states@, cs, k as nat)),
        decreases n - k,
    {
        let state = &states[k];
        let ghost vp = visible_prefix(states@, cs, k as nat);
        let seen = if state.id.raw() == center_id.raw() {
            true
        } else {
            let dx: i128 = state.pos_q[0] as i128 - center[0] as i128;
            let dy: i128 = state.pos_q[1] as i128 - center[1] as i128;
            let dz: i128 = state.pos_q[2] as i128 - center[2] as i128;
            assert(dist_sq(*state, cs) <= i128::MAX);
            assert(dx * dx >= 0 && dy * dy >= 0 && dz * dz >= 0) by (nonlinear_arith);
            let dist = dx * dx + dy * dy + dz * dz;
            dist <= radius_sq
        };
        if seen {
            let e = state.to_snapshot();
            insert_by_id_exec(&mut entities, e);
            proof {
                let vp1 = vp.push(demo_entity(*state));
                assert(vp1.drop_last() =~= vp);
                assert(visible_prefix(states@, cs, (k + 1) as nat) == vp1);
            }
        }
        k = k + 1;
    }
    Snapshot { tick, entities }
}

} // verus!
