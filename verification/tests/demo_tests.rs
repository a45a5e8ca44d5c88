use sdec::codec::{
    apply_delta_snapshot_from_packet, decode_full_snapshot_from_packet, decode_session_init_packet,
    decode_session_packet, encode_delta_snapshot_for_client_session, encode_full_snapshot,
    encode_session_init_packet, CodecLimits, CompactHeaderMode, SnapshotTick,
};
use sdec::demo_schema::{demo_schema, DemoEntityState, POS_MAX, POS_MIN, VEL_MAX, VEL_MIN};
use sdec::demo_sim::{build_visible_snapshot, clamp, init_states, step_states, Rng, VIS_RADIUS};
use sdec::codec::EntityId;
use sdec::wire::{decode_packet, Limits, HEADER_SIZE};

fn state(id: u32, pos: [i64; 3]) -> DemoEntityState {
    DemoEntityState {
        id: EntityId::new(id),
        pos_q: pos,
        vel_q: [0, 0, 0],
        yaw: 0,
        flags: [false, false, false],
    }
}

#[test]
fn rng_first_values_exact() {
    let mut rng = Rng::new(1);
    assert_eq!(rng.next_u32(), 1_481_765_933);
    assert_eq!(rng.state, 6_364_136_223_846_793_006);
    assert_eq!(rng.next_u32(), 3_232_861_391);
}

#[test]
fn rng_is_deterministic() {
    let mut a = Rng::new(42);
    let mut b = Rng::new(42);
    for _ in 0..100 {
        assert_eq!(a.next_u32(), b.next_u32());
    }
}

#[test]
fn range_stays_in_range() {
    let mut rng = Rng::new(7);
    for _ in 0..1000 {
        let v = rng.range_i64(-50, 50);
        assert!((-50..=50).contains(&v));
    }
    let mut rng = Rng::new(7);
    for _ in 0..100 {
        let v = rng.range_i64(5, 5);
        assert!(v == 5 || v == 6);
    }
}

#[test]
fn clamp_caps_then_raises() {
    assert_eq!(clamp(5, 0, 10), 5);
    assert_eq!(clamp(-5, 0, 10), 0);
    assert_eq!(clamp(15, 0, 10), 10);
    assert_eq!(clamp(3, 10, 0), 10);
}

#[test]
fn init_states_ids_and_bounds() {
    let mut rng = Rng::new(1);
    let states = init_states(16, &mut rng);
    assert_eq!(states.len(), 16);
    for (idx, st) in states.iter().enumerate() {
        assert_eq!(st.id.raw(), idx as u32 + 1);
        for axis in 0..3 {
            assert!(st.pos_q[axis] >= POS_MIN / 2 && st.pos_q[axis] <= POS_MAX / 2);
            assert!(st.vel_q[axis] >= VEL_MIN / 10 && st.vel_q[axis] <= VEL_MAX / 10);
        }
        assert!(st.yaw < 4096);
        assert_eq!(st.flags, [false, false, false]);
    }
    let mut replay = Rng::new(1);
    for _ in 0..16 * 7 {
        replay.next_u32();
    }
    assert_eq!(rng.state, replay.state);
}

#[test]
fn step_states_keep_bounds() {
    let mut rng = Rng::new(3);
    let mut states = init_states(8, &mut rng);
    for tick in 1..=500 {
        step_states(&mut states, &mut rng, tick, Some(10));
        for st in &states {
            for axis in 0..3 {
                assert!(st.pos_q[axis] >= POS_MIN && st.pos_q[axis] <= POS_MAX);
                assert!(st.vel_q[axis] >= VEL_MIN && st.vel_q[axis] <= VEL_MAX);
            }
            assert!(st.yaw < 4096);
        }
    }
}

#[test]
fn step_states_burst_toggles_first_flags() {
    let mut rng = Rng::new(9);
    let mut states = init_states(4, &mut rng);
    let before: Vec<[bool; 3]> = states.iter().map(|s| s.flags).collect();
    step_states(&mut states, &mut rng, 10, Some(5));
    for (st, prev) in states.iter().zip(before.iter()) {
        assert_eq!(st.flags[0], !prev[0]);
        assert_eq!(st.flags[1], !prev[1]);
    }
    let before: Vec<[bool; 3]> = states.iter().map(|s| s.flags).collect();
    step_states(&mut states, &mut rng, 11, Some(5));
    for (st, prev) in states.iter().zip(before.iter()) {
        assert_eq!(st.flags[0], prev[0]);
        assert_eq!(st.flags[1], prev[1]);
    }
}

#[test]
fn step_at_bound_turns_velocity() {
    let mut rng = Rng::new(0);
    let mut states = vec![DemoEntityState {
        id: EntityId::new(1),
        pos_q: [POS_MAX - 1, 0, 0],
        vel_q: [VEL_MAX, 0, 0],
        yaw: 0,
        flags: [false, false, false],
    }];
    step_states(&mut states, &mut rng, 1, None);
    assert_eq!(states[0].pos_q[0], POS_MAX);
    assert!(states[0].vel_q[0] < 0);
}

#[test]
fn visible_snapshot_sorted_and_filtered() {
    let states = vec![
        state(5, [0, 0, 0]),
        state(2, [VIS_RADIUS, 0, 0]),
        state(9, [VIS_RADIUS + 1, 0, 0]),
        state(1, [0, 0, -100]),
    ];
    let snap = build_visible_snapshot(SnapshotTick::new(3), &states, 0);
    assert_eq!(snap.tick, SnapshotTick::new(3));
    let ids: Vec<u32> = snap.entities.iter().map(|e| e.id.raw()).collect();
    assert_eq!(ids, vec![1, 2, 5]);
    let far = build_visible_snapshot(SnapshotTick::new(3), &states, 2);
    let ids: Vec<u32> = far.entities.iter().map(|e| e.id.raw()).collect();
    assert_eq!(ids, vec![2, 9]);
}

#[test]
fn demo_session_deltas_apply_to_current() {
    let schema = demo_schema();
    let limits = CodecLimits::default();
    let wire_limits = Limits::default();
    let mut session_buf = vec![0u8; HEADER_SIZE + 64];
    let session_len = encode_session_init_packet(
        &schema,
        SnapshotTick::new(1),
        Some(1),
        CompactHeaderMode::SessionV1,
        &limits,
        &mut session_buf,
    )
    .unwrap();
    let packet = decode_packet(&session_buf[..session_len], &wire_limits).unwrap();
    let mut session = decode_session_init_packet(&schema, &packet, &limits).unwrap();

    let mut rng = Rng::new(1);
    let mut states = init_states(8, &mut rng);
    step_states(&mut states, &mut rng, 1, Some(7));
    let mut baseline = build_visible_snapshot(SnapshotTick::new(1), &states, 0);
    let mut buf = vec![0u8; limits.max_section_bytes * 4];
    let n = encode_full_snapshot(&schema, baseline.tick, &baseline.entities, &limits, &mut buf).unwrap();
    let full = decode_packet(&buf[..n], &wire_limits).unwrap();
    let decoded = decode_full_snapshot_from_packet(&schema, &full, &limits).unwrap();
    assert_eq!(decoded.entities, baseline.entities);

    let mut last_tick = SnapshotTick::new(1);
    for tick in 2..=40 {
        step_states(&mut states, &mut rng, tick, Some(7));
        let current = build_visible_snapshot(SnapshotTick::new(tick), &states, 0);
        let mut out = vec![0u8; limits.max_section_bytes * 4];
        let len = encode_delta_snapshot_for_client_session(
            &schema,
            current.tick,
            baseline.tick,
            &baseline,
            &current,
            &limits,
            &mut last_tick,
            &mut out,
        )
        .unwrap();
        let packet = decode_session_packet(&schema, &mut session, &out[..len], &wire_limits).unwrap();
        let applied = apply_delta_snapshot_from_packet(&schema, &baseline, &packet, &limits).unwrap();
        assert_eq!(applied.tick, current.tick);
        assert_eq!(applied.entities, current.entities);
        baseline = current;
    }
}

#[test]
fn step_clamps_positions_from_out_of_bounds_input() {
    let mut states = vec![DemoEntityState {
        id: EntityId::new(1),
        pos_q: [POS_MAX * 3, POS_MIN * 3, 0],
        vel_q: [0, 0, 0],
        yaw: 0,
        flags: [false, false, false],
    }];
    let mut rng = Rng::new(7);
    step_states(&mut states, &mut rng, 1, None);
    for axis in 0..3 {
        assert!(states[0].pos_q[axis] >= POS_MIN && states[0].pos_q[axis] <= POS_MAX);
    }
}
