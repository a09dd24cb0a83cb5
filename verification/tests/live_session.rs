use opensdts::double::Double;
use opensdts::live::{
    begins_appearance, closest_visible, fresh_hits, register_hit, sort_targets, Candidate, Mode,
    SessionFlags,
};
use opensdts::scenario::Durability;
use opensdts::session::TargetSnapshot;

fn d(x: f64) -> Double {
    Double { bits: x.to_bits() }
}

fn c(visible: bool, dist: f64) -> Candidate {
    Candidate { visible, distance_mm: d(dist) }
}

fn durability(n: u32) -> Durability {
    Durability { hits_to_destroy: n, shrink_per_hit: d(0.5), min_radius_factor: d(0.2) }
}

#[test]
fn flags_follow_start_stop_and_replay() {
    let mut f = SessionFlags::new();
    assert_eq!(f.mode, Mode::Live);
    assert!(!f.running);
    assert!(!f.live_active());
    f.start();
    assert!(f.live_active());
    assert!(!f.replay_active());
    assert_eq!(f.mode_name(), "live");
    f.score(true);
    f.score(false);
    f.score(true);
    assert_eq!((f.hits, f.misses), (2, 1));
    f.stop();
    assert!(!f.running);
    assert!(!f.live_active());
    assert_eq!((f.hits, f.misses), (2, 1));
    f.start_replay(false);
    assert_eq!(f.mode_name(), "replay");
    assert!(f.replay_active());
    assert!(!f.finished);
    assert_eq!((f.hits, f.misses), (0, 0));
    f.start_replay(true);
    assert!(f.finished);
    f.start();
    assert_eq!(f.mode, Mode::Live);
    assert_eq!((f.hits, f.misses), (0, 0));
}

#[test]
fn impacts_score_against_the_nearest_shown_target() {
    assert_eq!(closest_visible(&vec![]), None);
    assert_eq!(closest_visible(&vec![c(false, 1.0)]), None);
    assert_eq!(closest_visible(&vec![c(true, 5.0), c(true, 2.0), c(false, 1.0)]), Some(1));
    // ties keep the earlier target
    assert_eq!(closest_visible(&vec![c(true, 2.0), c(true, 2.0)]), Some(0));
    // a NaN distance never beats a chosen one, but is chosen first
    assert_eq!(closest_visible(&vec![c(true, f64::NAN), c(true, 3.0)]), Some(0));
    assert_eq!(closest_visible(&vec![c(true, 3.0), c(true, f64::NAN)]), Some(0));
    assert_eq!(closest_visible(&vec![c(true, f64::INFINITY), c(true, 1e300)]), Some(1));
}

#[test]
fn hits_count_down_and_destroy_on_the_last_one() {
    assert_eq!(fresh_hits(&Some(durability(3))), Some(3));
    assert_eq!(fresh_hits(&None), None);
    let first = register_hit(Some(3), &durability(3));
    assert_eq!((first.hits_remaining, first.destroyed), (2, false));
    let second = register_hit(Some(2), &durability(3));
    assert_eq!((second.hits_remaining, second.destroyed), (1, false));
    let third = register_hit(Some(1), &durability(3));
    assert_eq!((third.hits_remaining, third.destroyed), (0, true));
    let unrecorded = register_hit(None, &durability(2));
    assert_eq!((unrecorded.hits_remaining, unrecorded.destroyed), (1, false));
    let zero_budget = register_hit(None, &durability(0));
    assert_eq!((zero_budget.hits_remaining, zero_budget.destroyed), (0, true));
}

#[test]
fn a_new_appearance_begins_when_a_shown_target_changes_step() {
    assert!(begins_appearance((u64::MAX, usize::MAX), (0, 0), true));
    assert!(!begins_appearance((0, 0), (0, 0), true));
    assert!(begins_appearance((0, 0), (1, 0), true));
    assert!(begins_appearance((0, 0), (0, 1), true));
    assert!(!begins_appearance((0, 0), (1, 0), false));
}

fn snap(id: &str) -> TargetSnapshot {
    TargetSnapshot {
        id: id.to_string(),
        x_mm: d(0.0),
        y_mm: d(0.0),
        radius_mm: d(1.0),
        visible: true,
        shape: "circle".to_string(),
        fill: "#fff".to_string(),
        stroke: "#000".to_string(),
    }
}

#[test]
fn snapshot_targets_are_ordered_by_id() {
    let v = vec![snap("right"), snap("left"), snap("b"), snap("a"), snap("ab"), snap("B")];
    let sorted = sort_targets(v);
    let ids: Vec<&str> = sorted.iter().map(|t| t.id.as_str()).collect();
    assert_eq!(ids, vec!["B", "a", "ab", "b", "left", "right"]);
    assert!(sort_targets(Vec::new()).is_empty());
}

#[test]
fn ordering_targets_keeps_every_snapshot() {
    let v = vec![snap("c"), snap("a"), snap("c"), snap("b")];
    let sorted = sort_targets(v);
    let ids: Vec<&str> = sorted.iter().map(|t| t.id.as_str()).collect();
    assert_eq!(ids, vec!["a", "b", "c", "c"]);
}
