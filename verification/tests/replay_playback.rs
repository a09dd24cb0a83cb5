use opensdts::double::Double;
use opensdts::protocol::{
    empty_data, impact, result, session_start, target_spawn, target_update, Envelope,
};
use opensdts::session::{
    apply_update, bump, clamp_time, clone_envelope, replay_header, replay_parts, result_event,
    sort_playback, spawn_snapshot, targets_from_spawns, upsert_snapshot, Replay, TargetSnapshot,
};

fn d(x: f64) -> Double {
    Double { bits: x.to_bits() }
}

fn f(x: Double) -> f64 {
    f64::from_bits(x.bits)
}

fn recorded_session() -> Vec<Envelope> {
    vec![
        session_start(d(0.0), "sess-1", d(800.0), d(600.0), "stationary.json"),
        target_spawn(d(0.0), "circle-1", "circle", d(50.0), "#fff", "#000"),
        target_update(d(1.0), "circle-1", d(100.0), d(100.0), true, d(50.0)),
        impact(d(1.0), "mouse", "impact-1", d(100.0), d(100.0)),
        result(d(1.0), "circle-1", "impact-1", true, d(0.0), d(100.0), d(100.0), None),
        target_update(d(2.0), "circle-1", d(100.0), d(100.0), true, d(50.0)),
    ]
}

#[test]
fn clamp_time_is_max_with_zero() {
    assert_eq!(f(clamp_time(d(2.5))), 2.5);
    assert_eq!(f(clamp_time(d(-3.0))), 0.0);
    assert_eq!(f(clamp_time(d(f64::NAN))), 0.0);
    assert_eq!(f(clamp_time(d(f64::INFINITY))), f64::INFINITY);
    assert_eq!(clamp_time(d(-0.0)).bits, (-0.0f64).to_bits());
}

#[test]
fn counters_wrap_like_release_arithmetic() {
    assert_eq!(bump(0), 1);
    assert_eq!(bump(41), 42);
    assert_eq!(bump(u32::MAX), 0);
}

#[test]
fn playback_is_stably_sorted_by_time() {
    let v = vec![
        target_update(d(2.0), "a", d(0.0), d(0.0), true, d(1.0)),
        result(d(1.0), "a", "i1", true, d(0.0), d(0.0), d(0.0), None),
        target_update(d(1.0), "b", d(0.0), d(0.0), true, d(1.0)),
        target_update(d(-1.0), "c", d(0.0), d(0.0), true, d(1.0)),
    ];
    let sorted = sort_playback(v);
    let order: Vec<(String, f64)> = sorted.iter().map(|e| (e.kind.clone(), f(e.time))).collect();
    assert_eq!(
        order,
        vec![
            ("target_update".to_string(), -1.0),
            ("result".to_string(), 1.0),
            ("target_update".to_string(), 1.0),
            ("target_update".to_string(), 2.0),
        ]
    );
    assert_eq!(sorted[2].data.target_id.as_deref(), Some("b"));
}

#[test]
fn replay_parts_split_a_recording() {
    let parts = replay_parts(&recorded_session());
    assert_eq!(parts.session_start.data.session_id.as_deref(), Some("sess-1"));
    assert_eq!(parts.spawns.len(), 1);
    let kinds: Vec<&str> = parts.playback.iter().map(|e| e.kind.as_str()).collect();
    assert_eq!(kinds, vec!["target_update", "result", "target_update"]);
}

#[test]
fn replay_parts_stand_in_start_when_missing() {
    let v = vec![target_update(d(1.0), "x", d(1.0), d(2.0), true, d(3.0))];
    let parts = replay_parts(&v);
    let h = replay_header(&parts.session_start);
    assert_eq!(h.session_id, "replay");
    assert_eq!(h.scenario_file, "replay");
    assert_eq!(f(h.arena_width_mm), 1600.0);
    assert_eq!(f(h.arena_height_mm), 1000.0);
}

#[test]
fn replay_header_reads_the_session_start() {
    let start = session_start(d(0.0), "abc", d(800.0), d(600.0), "zigzag.json");
    let h = replay_header(&start);
    assert_eq!(h.session_id, "abc");
    assert_eq!(h.scenario_file, "zigzag.json");
    assert_eq!(f(h.arena_width_mm), 800.0);
    assert_eq!(f(h.arena_height_mm), 600.0);
}

#[test]
fn spawn_snapshots_default_missing_fields() {
    let spawn = target_spawn(d(0.0), "t1", "square", d(20.0), "#111", "#222");
    let s = spawn_snapshot(&spawn, d(400.0), d(300.0));
    assert_eq!(s.id, "t1");
    assert_eq!(s.shape, "square");
    assert_eq!(f(s.x_mm), 400.0);
    assert_eq!(f(s.radius_mm), 20.0);
    assert!(!s.visible);

    let bare = Envelope {
        kind: "target_spawn".to_string(),
        time: d(0.0),
        source: "core".to_string(),
        data: empty_data(),
    };
    let s = spawn_snapshot(&bare, d(1.0), d(2.0));
    assert_eq!(s.id, "");
    assert_eq!(s.shape, "circle");
    assert_eq!(s.fill, "#e3b341");
    assert_eq!(s.stroke, "#c99a2e");
    assert_eq!(f(s.radius_mm), 0.0);
}

#[test]
fn later_spawns_replace_earlier_ones_with_the_same_id() {
    let spawns = vec![
        target_spawn(d(0.0), "a", "circle", d(10.0), "#1", "#2"),
        target_spawn(d(0.0), "b", "circle", d(20.0), "#1", "#2"),
        target_spawn(d(0.0), "a", "circle", d(30.0), "#1", "#2"),
    ];
    let ts = targets_from_spawns(&spawns, d(0.0), d(0.0));
    assert_eq!(ts.len(), 2);
    assert_eq!(ts[0].id, "a");
    assert_eq!(f(ts[0].radius_mm), 30.0);
    assert_eq!(ts[1].id, "b");
}

fn snap(id: &str, x: f64) -> TargetSnapshot {
    TargetSnapshot {
        id: id.to_string(),
        x_mm: d(x),
        y_mm: d(0.0),
        radius_mm: d(5.0),
        visible: false,
        shape: "circle".to_string(),
        fill: "#fff".to_string(),
        stroke: "#000".to_string(),
    }
}

#[test]
fn upsert_replaces_or_appends() {
    let mut ts = vec![snap("a", 1.0), snap("b", 2.0)];
    upsert_snapshot(&mut ts, snap("b", 9.0));
    assert_eq!(ts.len(), 2);
    assert_eq!(f(ts[1].x_mm), 9.0);
    upsert_snapshot(&mut ts, snap("c", 3.0));
    assert_eq!(ts.len(), 3);
    assert_eq!(ts[2].id, "c");
}

#[test]
fn updates_move_only_their_target() {
    let mut ts = vec![snap("a", 1.0), snap("b", 2.0)];
    let env = target_update(d(1.0), "b", d(7.0), d(8.0), true, d(3.0));
    apply_update(&mut ts, &env);
    assert_eq!(f(ts[0].x_mm), 1.0);
    assert!(!ts[0].visible);
    assert_eq!(f(ts[1].x_mm), 7.0);
    assert_eq!(f(ts[1].y_mm), 8.0);
    assert_eq!(f(ts[1].radius_mm), 3.0);
    assert!(ts[1].visible);
}

#[test]
fn result_events_read_recorded_results() {
    let env = result(d(1.5), "t", "i", true, d(4.0), d(1.0), d(2.0), Some(3));
    let ev = result_event(&env);
    assert!(ev.hit);
    assert_eq!(ev.target_id, "t");
    assert_eq!(ev.impact_id, "i");
    assert_eq!(f(ev.distance_mm), 4.0);
    assert_eq!(ev.hits_remaining, Some(3));

    let mut bare = clone_envelope(&env);
    bare.data = empty_data();
    let ev = result_event(&bare);
    assert!(!ev.hit);
    assert_eq!(f(ev.distance_mm), f64::INFINITY);
    assert_eq!(f(ev.x_mm), 0.0);
    assert_eq!(ev.hits_remaining, None);
}

#[test]
fn recorded_playback_reproduces_the_hit_and_final_state() {
    let parts = replay_parts(&recorded_session());
    let h = replay_header(&parts.session_start);
    let cx = d(f(h.arena_width_mm) / 2.0);
    let cy = d(f(h.arena_height_mm) / 2.0);
    let targets = targets_from_spawns(&parts.spawns, cx, cy);
    assert_eq!(f(targets[0].x_mm), 400.0);
    let mut replay = Replay::new(parts.playback, targets);
    assert!(!replay.finished());

    let early = replay.update(d(1.0));
    assert_eq!(early.len(), 1);
    assert!(early[0].hit);
    assert_eq!(replay.hits, 1);
    assert_eq!(replay.misses, 0);
    assert_eq!(f(replay.targets[0].x_mm), 100.0);
    assert!(!replay.finished());

    let late = replay.update(d(10.0));
    assert!(late.is_empty());
    assert!(replay.finished());
    assert_eq!(f(replay.targets[0].x_mm), 100.0);
    assert!(replay.targets[0].visible);
}

#[test]
fn replay_update_before_anything_is_due_plays_nothing() {
    let parts = replay_parts(&recorded_session());
    let mut replay = Replay::new(parts.playback, Vec::new());
    let none = replay.update(d(0.5));
    assert!(none.is_empty());
    assert_eq!(replay.cursor, 0);
    let all = replay.update(d(f64::INFINITY));
    assert_eq!(all.len(), 1);
    assert_eq!(replay.cursor, 3);
}

#[test]
fn replay_in_steps_matches_replay_at_once() {
    let mut stepped = Replay::new(replay_parts(&recorded_session()).playback, {
        let parts = replay_parts(&recorded_session());
        targets_from_spawns(&parts.spawns, d(400.0), d(300.0))
    });
    let mut once = Replay::new(replay_parts(&recorded_session()).playback, {
        let parts = replay_parts(&recorded_session());
        targets_from_spawns(&parts.spawns, d(400.0), d(300.0))
    });
    let mut events = stepped.update(d(1.0));
    events.extend(stepped.update(d(2.0)));
    let all = once.update(d(2.0));
    assert_eq!(stepped.cursor, once.cursor);
    assert_eq!((stepped.hits, stepped.misses), (once.hits, once.misses));
    assert_eq!(events.len(), all.len());
    assert_eq!(events[0].impact_id, all[0].impact_id);
    assert_eq!(stepped.targets.len(), once.targets.len());
    assert_eq!(stepped.targets[0].x_mm, once.targets[0].x_mm);
    assert_eq!(stepped.targets[0].id, "circle-1");
}

#[test]
fn replay_parts_keep_the_recorded_order_too() {
    let v = vec![
        target_update(d(2.0), "a", d(0.0), d(0.0), true, d(1.0)),
        impact(d(1.5), "mouse", "i", d(0.0), d(0.0)),
        result(d(1.0), "a", "i", false, d(9.0), d(0.0), d(0.0), None),
    ];
    let parts = replay_parts(&v);
    let recorded: Vec<f64> = parts.recorded.iter().map(|e| f(e.time)).collect();
    let sorted: Vec<f64> = parts.playback.iter().map(|e| f(e.time)).collect();
    assert_eq!(recorded, vec![2.0, 1.0]);
    assert_eq!(sorted, vec![1.0, 2.0]);
    let mut replay = Replay::new(parts.playback, Vec::new());
    let ev = replay.update(d(5.0));
    assert_eq!(ev.len(), 1);
    assert!(!ev[0].hit);
    assert_eq!((replay.hits, replay.misses), (0, 1));
}
