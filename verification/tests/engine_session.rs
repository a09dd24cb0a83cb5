use opensdts::double::Double;
use opensdts::engine::{Engine, HitAction};
use opensdts::scenario::{
    Arena, DisplayDefinition, Durability, DurationSpec, Motion, PositionSpec, Scenario, Step,
    TargetDefinition, TargetState,
};
use opensdts::session::{clamp_time, replay_parts, ScoreEvent, Snapshot};

fn d(x: f64) -> Double {
    Double { bits: x.to_bits() }
}

fn f(x: Double) -> f64 {
    f64::from_bits(x.bits)
}

fn shown_target(id: &str, x: f64, y: f64, repeat: bool, durability: Option<Durability>) -> TargetDefinition {
    TargetDefinition {
        id: id.to_string(),
        display: DisplayDefinition {
            shape: "circle".to_string(),
            radius_mm: d(50.0),
            fill: "#fff".to_string(),
            stroke: "#000".to_string(),
        },
        repeat,
        durability,
        sequence: vec![Step::Show {
            duration_secs: DurationSpec::Fixed(d(1000.0)),
            motion: Motion::Position { position: PositionSpec::Fixed { x_mm: d(x), y_mm: d(y) } },
        }],
    }
}

fn scenario(name: &str, targets: Vec<TargetDefinition>) -> Scenario {
    Scenario {
        name: name.to_string(),
        description: String::new(),
        seed: 1,
        arena: Arena { width_mm: d(800.0), height_mm: d(600.0) },
        targets,
    }
}

/// One stationary target at (100, 100), radius 50, shown for 1000 s.
fn stationary_scenario() -> Scenario {
    scenario("Stationary Test Target", vec![shown_target("circle-1", 100.0, 100.0, false, None)])
}

fn budget(hits: u32) -> Option<Durability> {
    Some(Durability { hits_to_destroy: hits, shrink_per_hit: d(0.5), min_radius_factor: d(0.2) })
}

/// The same target, repeating, destroyed by its third hit.
fn destructible_scenario() -> Scenario {
    scenario("Destructible Test Target", vec![shown_target("circle-1", 100.0, 100.0, true, budget(3))])
}

fn two_destructible_targets_scenario() -> Scenario {
    scenario(
        "Two Destructible Targets",
        vec![
            shown_target("left", 100.0, 100.0, true, budget(2)),
            shown_target("right", 700.0, 500.0, true, budget(2)),
        ],
    )
}

/// Drives the engine the way a host does: evaluates the (stationary,
/// single-step) targets on their own clocks and performs the hit actions.
struct Host {
    engine: Engine,
}

fn fixed_position(t: &TargetDefinition) -> (f64, f64) {
    match &t.sequence[0] {
        Step::Show { motion: Motion::Position { position: PositionSpec::Fixed { x_mm, y_mm } }, .. } => {
            (f(*x_mm), f(*y_mm))
        }
        _ => panic!("test targets sit still"),
    }
}

fn state_at(t: &TargetDefinition, local: f64) -> TargetState {
    let (x, y) = fixed_position(t);
    let duration = 1000.0;
    let (visible, cycle, step_index, remaining) = if t.repeat {
        let cycle = (local / duration).floor();
        (true, cycle as u64, 0usize, duration - (local - cycle * duration))
    } else if local < duration {
        (true, 0, 0, duration - local)
    } else {
        (false, 0, 1, 0.0)
    };
    TargetState {
        id: t.id.clone(),
        x_mm: d(x),
        y_mm: d(y),
        radius_mm: t.display.radius_mm,
        visible,
        cycle,
        step_index,
        remaining_in_step_secs: d(remaining),
    }
}

impl Host {
    fn new(s: Scenario) -> Host {
        let (cx, cy) = (f(s.arena.width_mm) / 2.0, f(s.arena.height_mm) / 2.0);
        Host { engine: Engine::new(s, 1, d(cx), d(cy)).unwrap() }
    }

    fn states(&self, t: f64) -> Vec<TargetState> {
        let t = f(clamp_time(d(t)));
        self.engine
            .scenario()
            .targets
            .iter()
            .map(|target| {
                let offset = self.engine.runtime_of(&target.id).map(|r| f(r.time_offset)).unwrap_or(0.0);
                state_at(target, t + offset)
            })
            .collect()
    }

    fn start(&mut self) {
        let placements = self.engine.scenario().targets.iter().map(|t| state_at(t, 0.0)).collect();
        self.engine.start(placements);
    }

    fn update(&mut self, t: f64) -> usize {
        let states = self.states(t);
        self.engine.update(d(t), states).len()
    }

    fn impact(&mut self, t: f64, id: &str, x: f64, y: f64) -> ScoreEvent {
        let states = self.states(t);
        let distances = states
            .iter()
            .map(|s| d(((x - f(s.x_mm)).powi(2) + (y - f(s.y_mm)).powi(2)).sqrt()))
            .collect();
        let outcome = self.engine.impact(d(t), id, d(x), d(y), states, distances);
        match outcome.action {
            Some(HitAction::Shrink { target_id, radius_mm, shrink_per_hit, base_radius_mm, min_radius_factor }) => {
                let r = (f(radius_mm) * f(shrink_per_hit)).max(f(base_radius_mm) * f(min_radius_factor));
                self.engine.set_radius(&target_id, d(r));
            }
            Some(HitAction::Skip { target_id, time_offset, remaining_in_step_secs }) => {
                let o = f(time_offset) + f(remaining_in_step_secs) + 1e-6;
                self.engine.set_time_offset(&target_id, d(o));
            }
            None => {}
        }
        outcome.event
    }

    fn snapshot(&self) -> Snapshot {
        self.engine.snapshot()
    }
}

#[test]
fn new_rejects_invalid_scenario_json() {
    let bad = Scenario {
        name: "bad".to_string(),
        description: String::new(),
        seed: 1,
        arena: Arena { width_mm: d(0.0), height_mm: d(1.0) },
        targets: vec![],
    };
    assert!(Engine::new(bad, 1, d(0.0), d(0.5)).is_err());
}

#[test]
fn start_emits_session_start_and_spawn_into_recording() {
    let mut host = Host::new(stationary_scenario());
    host.start();
    let snapshot = host.snapshot();
    assert!(snapshot.running);
    assert_eq!(snapshot.mode, "live");
    assert_eq!(snapshot.targets.len(), 1);

    let kinds: Vec<&str> = host.engine.recording().iter().map(|e| e.kind.as_str()).collect();
    assert!(kinds.contains(&"session_start"));
    assert!(kinds.contains(&"target_spawn"));
}

#[test]
fn update_moves_time_forward_and_reflects_target_state() {
    let mut host = Host::new(stationary_scenario());
    host.start();
    assert_eq!(host.update(2.5), 1);
    let snapshot = host.snapshot();
    assert_eq!(f(snapshot.time), 2.5);
    assert!(snapshot.targets[0].visible);
    assert_eq!(f(snapshot.targets[0].x_mm), 100.0);
    assert_eq!(f(snapshot.targets[0].y_mm), 100.0);
}

#[test]
fn impact_scores_hit_and_miss_against_authoritative_state() {
    let mut host = Host::new(stationary_scenario());
    host.start();
    host.update(1.0);

    let hit = host.impact(1.0, "impact-1", 100.0, 100.0);
    assert!(hit.hit);
    assert_eq!(hit.target_id, "circle-1");

    let miss = host.impact(1.0, "impact-2", 900.0, 900.0);
    assert!(!miss.hit);

    let snapshot = host.snapshot();
    assert_eq!(snapshot.hits, 1);
    assert_eq!(snapshot.misses, 1);
}

#[test]
fn hits_shrink_a_destructible_target_and_destroy_it_on_the_final_hit() {
    let mut host = Host::new(destructible_scenario());
    host.start();

    let first = host.impact(1.0, "impact-1", 100.0, 100.0);
    assert!(first.hit);
    assert_eq!(first.hits_remaining, Some(2));
    host.update(1.0);
    assert_eq!(f(host.snapshot().targets[0].radius_mm), 25.0);

    let second = host.impact(1.0, "impact-2", 100.0, 100.0);
    assert!(second.hit);
    assert_eq!(second.hits_remaining, Some(1));
    host.update(1.0);
    assert_eq!(f(host.snapshot().targets[0].radius_mm), 12.5);

    let third = host.impact(1.0, "impact-3", 100.0, 100.0);
    assert!(third.hit);
    assert_eq!(third.hits_remaining, Some(0));

    let fourth = host.impact(1.0, "impact-4", 100.0, 100.0);
    assert!(fourth.hit);
    assert_eq!(fourth.hits_remaining, Some(2));
    host.update(1.0);
    assert_eq!(f(host.snapshot().targets[0].radius_mm), 25.0);
}

#[test]
fn indestructible_targets_ignore_hits_remaining_and_never_shrink() {
    let mut host = Host::new(stationary_scenario());
    host.start();
    for i in 0..5 {
        let outcome = host.impact(1.0, &format!("impact-{i}"), 100.0, 100.0);
        assert!(outcome.hit);
        assert_eq!(outcome.hits_remaining, None);
    }
    assert_eq!(f(host.snapshot().targets[0].radius_mm), 50.0);
}

#[test]
fn destroying_one_of_two_simultaneous_targets_leaves_the_other_untouched() {
    let mut host = Host::new(two_destructible_targets_scenario());
    host.start();

    let hit1 = host.impact(1.0, "impact-1", 100.0, 100.0);
    assert_eq!(hit1.target_id, "left");
    assert_eq!(hit1.hits_remaining, Some(1));
    let hit2 = host.impact(1.0, "impact-2", 100.0, 100.0);
    assert_eq!(hit2.target_id, "left");
    assert_eq!(hit2.hits_remaining, Some(0));

    host.update(1.0);
    let snapshot = host.snapshot();
    let right = snapshot.targets.iter().find(|t| t.id == "right").unwrap();
    assert_eq!(f(right.radius_mm), 50.0, "untouched target keeps its base radius");

    let hit3 = host.impact(1.0, "impact-3", 700.0, 500.0);
    assert_eq!(hit3.target_id, "right");
    assert_eq!(hit3.hits_remaining, Some(1));
}

#[test]
fn export_then_load_recording_round_trips() {
    let mut host = Host::new(stationary_scenario());
    host.start();
    host.update(1.0);
    host.impact(1.0, "impact-1", 100.0, 100.0);
    host.update(2.0);

    let kinds: Vec<&str> = host.engine.recording().iter().map(|e| e.kind.as_str()).collect();
    assert!(kinds.iter().any(|k| *k == "session_start"));
    assert!(kinds.iter().any(|k| *k == "target_spawn"));
    assert!(kinds.iter().any(|k| *k == "impact"));
    assert!(kinds.iter().any(|k| *k == "result"));
    assert!(kinds.iter().filter(|k| **k == "target_update").count() >= 2);
}

fn replay_of(recording: &Host) -> Host {
    let mut replay = Host::new(stationary_scenario());
    let envelopes = recording.engine.recording();
    let parts = replay_parts(envelopes);
    let w = f(parts.session_start.data.arena_width_mm.unwrap());
    let h = f(parts.session_start.data.arena_height_mm.unwrap());
    replay.engine.start_replay(envelopes, d(w / 2.0), d(h / 2.0));
    replay
}

#[test]
fn replay_reproduces_recorded_hits_and_final_state() {
    let mut live = Host::new(stationary_scenario());
    live.start();
    live.update(1.0);
    let outcome = live.impact(1.0, "impact-1", 100.0, 100.0);
    assert!(outcome.hit);
    live.update(2.0);

    let mut replay = replay_of(&live);
    assert_eq!(replay.snapshot().mode, "replay");
    assert!(!replay.snapshot().finished);

    let results_early = replay.engine.replay_update(d(1.0));
    assert_eq!(results_early.len(), 1);
    assert!(results_early[0].hit);
    assert_eq!(replay.snapshot().hits, 1);

    let results_late = replay.engine.replay_update(d(10.0));
    assert!(results_late.is_empty());
    assert!(replay.snapshot().finished);
    assert_eq!(f(replay.snapshot().targets[0].x_mm), 100.0);
}

#[test]
fn set_scenario_file_is_reflected_in_recorded_session_start() {
    let mut host = Host::new(stationary_scenario());
    host.engine.set_scenario_file("zigzag.json".to_string());
    host.start();
    assert_eq!(host.engine.session_start_envelope().data.scenario.as_deref(), Some("zigzag.json"));
    assert_eq!(host.snapshot().scenario_file, "zigzag.json");
}

#[test]
fn impact_is_a_no_op_during_replay() {
    let mut live = Host::new(stationary_scenario());
    live.start();
    live.update(1.0);
    live.impact(1.0, "impact-1", 100.0, 100.0);

    let mut replay = replay_of(&live);
    let outcome = replay.impact(1.0, "impact-2", 100.0, 100.0);
    assert!(!outcome.hit);
    assert_eq!(replay.snapshot().hits, 0);
    assert_eq!(replay.snapshot().misses, 0);
}

#[test]
fn engine_ids_come_from_the_session_counter() {
    let host = Host::new(stationary_scenario());
    assert_eq!(host.snapshot().session_id, "engine-session-000001");
    assert_eq!(host.snapshot().scenario_file, "");
}

#[test]
fn updates_and_impacts_are_ignored_until_started_and_after_stop() {
    let mut host = Host::new(stationary_scenario());
    assert_eq!(host.update(1.0), 0);
    let idle = host.impact(1.0, "i", 100.0, 100.0);
    assert!(!idle.hit);
    assert_eq!(f(idle.distance_mm), f64::INFINITY);
    assert!(host.engine.recording().is_empty());
    host.start();
    host.engine.stop();
    assert_eq!(host.update(1.0), 0);
    assert_eq!(host.engine.recording().len(), 2);
    assert!(!host.snapshot().running);
}

#[test]
fn negative_times_are_clamped_to_zero() {
    let mut host = Host::new(stationary_scenario());
    host.start();
    host.update(-5.0);
    assert_eq!(f(host.snapshot().time), 0.0);
    let ev = host.impact(-1.0, "i", 100.0, 100.0);
    assert_eq!(f(ev.time), 0.0);
}

#[test]
fn replaying_to_the_end_reproduces_the_live_scoreboard() {
    let mut live = Host::new(stationary_scenario());
    live.start();
    live.update(0.5);
    live.impact(0.7, "a", 100.0, 100.0);
    live.impact(0.8, "b", 500.0, 500.0);
    live.update(1.0);
    live.impact(1.2, "c", 120.0, 110.0);
    live.impact(1.3, "d", 100.0, 151.0);
    live.update(2.0);
    let scored = live.snapshot();
    assert_eq!((scored.hits, scored.misses), (2, 2));

    let mut replay = replay_of(&live);
    let mut events = replay.engine.replay_update(d(1.0));
    events.extend(replay.engine.replay_update(d(100.0)));
    let shown = replay.snapshot();
    assert!(shown.finished);
    assert_eq!((shown.hits, shown.misses), (scored.hits, scored.misses));
    let ids: Vec<&str> = events.iter().map(|e| e.impact_id.as_str()).collect();
    assert_eq!(ids, vec!["a", "b", "c", "d"]);
}

#[test]
fn replaying_to_the_end_reproduces_the_live_targets() {
    let mut live = Host::new(two_destructible_targets_scenario());
    live.start();
    live.update(0.5);
    live.impact(0.6, "a", 100.0, 100.0);
    live.update(0.7);
    live.impact(0.8, "b", 700.0, 500.0);
    live.impact(0.9, "c", 700.0, 500.0);
    live.update(1.5);
    let live_view = live.snapshot();

    let mut replay = replay_of(&live);
    replay.engine.replay_update(d(10.0));
    let replay_view = replay.snapshot();
    assert_eq!(live_view.targets.len(), replay_view.targets.len());
    for (a, b) in live_view.targets.iter().zip(replay_view.targets.iter()) {
        assert_eq!(a.id, b.id);
        assert_eq!(a.x_mm, b.x_mm);
        assert_eq!(a.y_mm, b.y_mm);
        assert_eq!(a.visible, b.visible);
        assert_eq!(a.radius_mm, b.radius_mm);
    }
    assert_eq!(f(live_view.targets[0].radius_mm), 25.0);
}
