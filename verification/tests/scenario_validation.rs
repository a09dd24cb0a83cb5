use opensdts::double::Double;
use opensdts::scenario::{
    default_fill, default_seed, default_shape, default_stroke, default_true, default_zigzags, Arena,
    DisplayDefinition, DurationSpec, Motion, PathSpec, Point, PositionSpec, Range, Scenario, Step,
    TargetDefinition,
};

fn d(x: f64) -> Double {
    Double { bits: x.to_bits() }
}

fn show(secs: f64) -> Step {
    Step::Show {
        duration_secs: DurationSpec::Fixed(d(secs)),
        motion: Motion::Position { position: PositionSpec::Fixed { x_mm: d(100.0), y_mm: d(100.0) } },
    }
}

fn target(id: &str, radius: f64, sequence: Vec<Step>) -> TargetDefinition {
    TargetDefinition {
        id: id.to_string(),
        display: DisplayDefinition {
            shape: "circle".to_string(),
            radius_mm: d(radius),
            fill: "#fff".to_string(),
            stroke: "#000".to_string(),
        },
        repeat: false,
        durability: None,
        sequence,
    }
}

fn scenario(w: f64, h: f64, targets: Vec<TargetDefinition>) -> Scenario {
    Scenario {
        name: "Test".to_string(),
        description: String::new(),
        seed: 1,
        arena: Arena { width_mm: d(w), height_mm: d(h) },
        targets,
    }
}

fn message(s: &Scenario) -> String {
    s.validate().unwrap_err().to_string()
}

#[test]
fn stationary_scenario_is_valid() {
    let s = scenario(800.0, 600.0, vec![target("circle-1", 50.0, vec![show(1000.0)])]);
    assert!(s.validate().is_ok());
}

#[test]
fn arena_must_be_positive() {
    let s = scenario(0.0, 1.0, vec![]);
    assert_eq!(message(&s), "arena dimensions must be positive");
    let s = scenario(1.0, -5.0, vec![target("a", 1.0, vec![show(1.0)])]);
    assert_eq!(message(&s), "arena dimensions must be positive");
}

#[test]
fn at_least_one_target() {
    let s = scenario(1.0, 1.0, vec![]);
    assert_eq!(message(&s), "a scenario must define at least one target");
}

#[test]
fn targets_need_id_radius_and_sequence() {
    let m = "targets require an id, positive radius, and non-empty sequence";
    assert_eq!(message(&scenario(1.0, 1.0, vec![target("", 1.0, vec![show(1.0)])])), m);
    assert_eq!(message(&scenario(1.0, 1.0, vec![target("a", 0.0, vec![show(1.0)])])), m);
    assert_eq!(message(&scenario(1.0, 1.0, vec![target("a", 1.0, vec![])])), m);
}

#[test]
fn durations_must_be_positive() {
    let s = scenario(1.0, 1.0, vec![target("a", 1.0, vec![show(1.0), show(0.0)])]);
    assert_eq!(message(&s), "step durations must be positive");
    let hide = Step::Hide {
        duration_secs: DurationSpec::Random { random: Range { min: d(2.0), max: d(1.0) } },
    };
    let s = scenario(1.0, 1.0, vec![target("a", 1.0, vec![hide])]);
    assert_eq!(message(&s), "random durations require 0 < min <= max");
}

#[test]
fn paths_must_be_runnable() {
    let poly = Step::Show {
        duration_secs: DurationSpec::Fixed(d(-1.0)),
        motion: Motion::Path {
            path: PathSpec::Polyline { points: vec![Point { x_mm: d(0.0), y_mm: d(0.0) }] },
        },
    };
    // the motion is checked before the duration
    let s = scenario(1.0, 1.0, vec![target("a", 1.0, vec![poly])]);
    assert_eq!(message(&s), "polyline paths require at least two points");
    let line = Step::Show {
        duration_secs: DurationSpec::Fixed(d(1.0)),
        motion: Motion::Path {
            path: PathSpec::RandomLine {
                margin_mm: d(10.0),
                distance_mm: Range { min: d(0.0), max: d(5.0) },
            },
        },
    };
    let s = scenario(1.0, 1.0, vec![target("a", 1.0, vec![line])]);
    assert_eq!(message(&s), "random-line distance requires 0 < min <= max");
}

#[test]
fn first_problem_wins_across_targets() {
    let s = scenario(
        1.0,
        1.0,
        vec![target("a", 1.0, vec![show(-1.0)]), target("", 1.0, vec![show(1.0)])],
    );
    assert_eq!(message(&s), "step durations must be positive");
}

#[test]
fn definition_defaults() {
    assert_eq!(default_seed(), 1);
    assert!(default_true());
    assert_eq!(default_shape(), "circle");
    assert_eq!(default_fill(), "#e3b341");
    assert_eq!(default_stroke(), "#c99a2e");
    assert_eq!(default_zigzags(), 6);
}
