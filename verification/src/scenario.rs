//! Declarative scenario definitions and their load-time validation.
//!
//! Lengths are millimetres and durations seconds, carried as binary64 values
//! (`Double`); evaluating where a target is at a given time happens outside
//! the library.
use vstd::prelude::*;

use crate::double::{spec_le, spec_lt, zero, Double};
use crate::names::EngineError;

verus! {

/// A scenario: an arena and one or more independently sequenced targets.
#[derive(Debug, Clone)]
pub struct Scenario {
    pub name: String,
    pub description: String,
    pub seed: u64,
    pub arena: Arena,
    pub targets: Vec<TargetDefinition>,
}

#[derive(Debug, Clone, Copy)]
pub struct Arena {
    pub width_mm: Double,
    pub height_mm: Double,
}

#[derive(Debug, Clone)]
pub struct TargetDefinition {
    pub id: String,
    pub display: DisplayDefinition,
    pub repeat: bool,
    /// A hit budget that makes the target destructible; `None` keeps it
    /// indestructible and constant-sized.
    pub durability: Option<Durability>,
    pub sequence: Vec<Step>,
}

#[derive(Debug, Clone)]
pub struct DisplayDefinition {
    pub shape: String,
    pub radius_mm: Double,
    pub fill: String,
    pub stroke: String,
}

/// How many hits one appearance takes and how it shrinks when hit.
#[derive(Debug, Clone, Copy)]
pub struct Durability {
    pub hits_to_destroy: u32,
    /// Radius multiplier after each non-destroying hit (1.0 by default).
    pub shrink_per_hit: Double,
    /// Floor for shrinking, as a fraction of the base radius (0.35 by default).
    pub min_radius_factor: Double,
}

#[derive(Debug, Clone)]
pub enum Step {
    Show { duration_secs: DurationSpec, motion: Motion },
    Hide { duration_secs: DurationSpec },
}

#[derive(Debug, Clone, Copy)]
pub enum DurationSpec {
    Fixed(Double),
    Random { random: Range },
}

#[derive(Debug, Clone, Copy)]
pub struct Range {
    pub min: Double,
    pub max: Double,
}

#[derive(Debug, Clone)]
pub enum Motion {
    Position { position: PositionSpec },
    Path { path: PathSpec },
}

#[derive(Debug, Clone, Copy)]
pub enum PositionSpec {
    Fixed { x_mm: Double, y_mm: Double },
    Random { margin_mm: Double, minimum_distance_mm: Double },
}

#[derive(Debug, Clone)]
pub enum PathSpec {
    Line { from: Point, to: Point },
    Polyline { points: Vec<Point> },
    Zigzag { from: Point, to: Point, zigzags: u32 },
    RandomLine { margin_mm: Double, distance_mm: Range },
}

#[derive(Debug, Clone, Copy)]
pub struct Point {
    pub x_mm: Double,
    pub y_mm: Double,
}

/// Where a target is at one moment of its own clock, as evaluating its
/// scenario gives it: position, radius, whether it is shown, the cycle and
/// step it is in, and the seconds left in that step.
#[derive(Debug, Clone)]
pub struct TargetState {
    pub id: String,
    pub x_mm: Double,
    pub y_mm: Double,
    pub radius_mm: Double,
    pub visible: bool,
    pub cycle: u64,
    pub step_index: usize,
    pub remaining_in_step_secs: Double,
}

/// `value <= 0.0`.
pub open spec fn not_positive(value: Double) -> bool {
    spec_le(value, zero())
}

/// The message for a show step's motion that cannot run, if any.
pub open spec fn motion_error(motion: Motion) -> Option<Seq<char>> {
    match motion {
        Motion::Path { path } => match path {
            PathSpec::Polyline { points } => if points@.len() < 2 {
                Some("polyline paths require at least two points"@)
            } else {
                None
            },
            PathSpec::RandomLine { distance_mm, .. } => if not_positive(distance_mm.min) || spec_lt(
                distance_mm.max,
                distance_mm.min,
            ) {
                Some("random-line distance requires 0 < min <= max"@)
            } else {
                None
            },
            _ => None,
        },
        _ => None,
    }
}

/// The message for a duration that is not positive, if any.
pub open spec fn duration_error(d: DurationSpec) -> Option<Seq<char>> {
    match d {
        DurationSpec::Fixed(value) => if not_positive(value) {
            Some("step durations must be positive"@)
        } else {
            None
        },
        DurationSpec::Random { random } => if not_positive(random.min) || spec_lt(
            random.max,
            random.min,
        ) {
            Some("random durations require 0 < min <= max"@)
        } else {
            None
        },
    }
}

/// The first problem with one step: its motion first, then its duration.
pub open spec fn step_error(step: Step) -> Option<Seq<char>> {
    match step {
        Step::Show { duration_secs, motion } => match motion_error(motion) {
            Some(e) => Some(e),
            None => duration_error(duration_secs),
        },
        Step::Hide { duration_secs } => duration_error(duration_secs),
    }
}

/// The first problem among `steps`, in order.
pub open spec fn steps_error(steps: Seq<Step>) -> Option<Seq<char>>
    decreases steps.len(),
{
    if steps.len() == 0 {
        None
    } else {
        match step_error(steps[0]) {
            Some(e) => Some(e),
            None => steps_error(steps.drop_first()),
        }
    }
}

/// The first problem with one target: an empty id, an empty sequence or a
/// radius that is not positive, then its steps.
pub open spec fn target_error(t: TargetDefinition) -> Option<Seq<char>> {
    if t.id@.len() == 0 || t.sequence@.len() == 0 || not_positive(t.display.radius_mm) {
        Some("targets require an id, positive radius, and non-empty sequence"@)
    } else {
        steps_error(t.sequence@)
    }
}

/// The first problem among `targets`, in order.
pub open spec fn targets_error(targets: Seq<TargetDefinition>) -> Option<Seq<char>>
    decreases targets.len(),
{
    if targets.len() == 0 {
        None
    } else {
        match target_error(targets[0]) {
            Some(e) => Some(e),
            None => targets_error(targets.drop_first()),
        }
    }
}

/// The first problem with a scenario, checked in the order the loader checks.
pub open spec fn scenario_error(s: Scenario) -> Option<Seq<char>> {
    if not_positive(s.arena.width_mm) || not_positive(s.arena.height_mm) {
        Some("arena dimensions must be positive"@)
    } else if s.targets@.len() == 0 {
        Some("a scenario must define at least one target"@)
    } else {
        targets_error(s.targets@)
    }
}

fn invalid(message: &str) -> (e: EngineError)
    ensures
        e.0@ == message@,
{
    EngineError(message.to_string())
}

fn validate_motion(motion: &Motion) -> (r: Result<(), EngineError>)
    ensures
        r is Ok <==> motion_error(*motion) is None,
        r matches Err(e) ==> motion_error(*motion) == Some(e.0@),
{
    if let Motion::Path { path } = motion {
        match path {
            PathSpec::Polyline { points } => {
                if points.len() < 2 {
                    return Err(invalid("polyline paths require at least two points"));
                }
            },
            PathSpec::RandomLine { distance_mm, .. } => {
                if distance_mm.min.le(Double::zero()) || distance_mm.max.lt(distance_mm.min) {
                    return Err(invalid("random-line distance requires 0 < min <= max"));
                }
            },
            _ => {},
        }
    }
    Ok(())
}

fn validate_duration(d: &DurationSpec) -> (r: Result<(), EngineError>)
    ensures
        r is Ok <==> duration_error(*d) is None,
        r matches Err(e) ==> duration_error(*d) == Some(e.0@),
{
    match d {
        DurationSpec::Fixed(value) => {
            if value.le(Double::zero()) {
                return Err(invalid("step durations must be positive"));
            }
        },
        DurationSpec::Random { random } => {
            if random.min.le(Double::zero()) || random.max.lt(random.min) {
                return Err(invalid("random durations require 0 < min <= max"));
            }
        },
    }
    Ok(())
}

fn validate_step(step: &Step) -> (r: Result<(), EngineError>)
    ensures
        r is Ok <==> step_error(*step) is None,
        r matches Err(e) ==> step_error(*step) == Some(e.0@),
{
    match step {
        Step::Show { duration_secs, motion } => match validate_motion(motion) {
            Ok(()) => validate_duration(duration_secs),
            Err(e) => Err(e),
        },
        Step::Hide { duration_secs } => validate_duration(duration_secs),
    }
}

proof fn lemma_steps_error_tail(steps: Seq<Step>, i: int)
    requires
        0 <= i < steps.len(),
    ensures
        steps_error(steps.subrange(i, steps.len() as int)) == match step_error(steps[i]) {
            Some(e) => Some(e),
            None => steps_error(steps.subrange(i + 1, steps.len() as int)),
        },
{
    let tail = steps.subrange(i, steps.len() as int);
    assert(tail.drop_first() =~= steps.subrange(i + 1, steps.len() as int));
    assert(tail[0] == steps[i]);
}

proof fn lemma_targets_error_tail(ts: Seq<TargetDefinition>, i: int)
    requires
        0 <= i < ts.len(),
    ensures
        targets_error(ts.subrange(i, ts.len() as int)) == match target_error(ts[i]) {
            Some(e) => Some(e),
            None => targets_error(ts.subrange(i + 1, ts.len() as int)),
        },
{
    let tail = ts.subrange(i, ts.len() as int);
    assert(tail.drop_first() =~= ts.subrange(i + 1, ts.len() as int));
    assert(tail[0] == ts[i]);
}

fn validate_target(t: &TargetDefinition) -> (r: Result<(), EngineError>)
    ensures
        r is Ok <==> target_error(*t) is None,
        r matches Err(e) ==> target_error(*t) == Some(e.0@),
{
    if t.id.as_str().is_empty() || t.sequence.len() == 0 || t.display.radius_mm.le(Double::zero()) {
        return Err(invalid("targets require an id, positive radius, and non-empty sequence"));
    }
    let n = t.sequence.len();
    let mut i: usize = 0;
    assert(t.sequence@.subrange(0, n as int) =~= t.sequence@);
    while i < n
        invariant
            n == t.sequence@.len(),
            i <= n,
            steps_error(t.sequence@) == steps_error(t.sequence@.subrange(i as int, n as int)),
            target_error(*t) == steps_error(t.sequence@),
        decreases n - i,
    {
        proof {
            lemma_steps_error_tail(t.sequence@, i as int);
        }
        match validate_step(&t.sequence[i]) {
            Ok(()) => {},
            Err(e) => {
                return Err(e);
            },
        }
        i = i + 1;
    }
    assert(t.sequence@.subrange(n as int, n as int) =~= Seq::<Step>::empty());
    Ok(())
}

impl Scenario {
    /// Checks the definition: a positive arena, at least one target, and for
    /// every target an id, a positive radius, a non-empty sequence, runnable
    /// motions and positive durations. The error names the first problem.
    pub fn validate(&self) -> (r: Result<(), EngineError>)
        ensures
            r is Ok <==> scenario_error(*self) is None,
            r matches Err(e) ==> scenario_error(*self) == Some(e.0@),
    {
        if self.arena.width_mm.le(Double::zero()) || self.arena.height_mm.le(Double::zero()) {
            return Err(invalid("arena dimensions must be positive"));
        }
        if self.targets.len() == 0 {
            return Err(invalid("a scenario must define at least one target"));
        }
        let n = self.targets.len();
        let mut i: usize = 0;
        assert(self.targets@.subrange(0, n as int) =~= self.targets@);
        while i < n
            invariant
                n == self.targets@.len(),
                i <= n,
                targets_error(self.targets@) == targets_error(
                    self.targets@.subrange(i as int, n as int),
                ),
                scenario_error(*self) == targets_error(self.targets@),
            decreases n - i,
        {
            proof {
                lemma_targets_error_tail(self.targets@, i as int);
            }
            match validate_target(&self.targets[i]) {
                Ok(()) => {},
                Err(e) => {
                    return Err(e);
                },
            }
            i = i + 1;
        }
        assert(self.targets@.subrange(n as int, n as int) =~= Seq::<TargetDefinition>::empty());
        Ok(())
    }
}

/// Seed used when a definition names none.
pub fn default_seed() -> (s: u64)
    ensures
        s == 1,
{
    1
}

/// Targets repeat their sequence unless told otherwise.
pub fn default_true() -> (b: bool)
    ensures
        b,
{
    true
}

/// Shape used when a display names none.
pub fn default_shape() -> (s: String)
    ensures
        s@ == "circle"@,
{
    "circle".to_string()
}

/// Fill color used when a display names none.
pub fn default_fill() -> (s: String)
    ensures
        s@ == "#e3b341"@,
{
    "#e3b341".to_string()
}

/// Stroke color used when a display names none.
pub fn default_stroke() -> (s: String)
    ensures
        s@ == "#c99a2e"@,
{
    "#c99a2e".to_string()
}

/// Number of zigzags used when a zigzag path names none.
pub fn default_zigzags() -> (n: u32)
    ensures
        n == 6,
{
    6
}


/// A duration that can be drawn: a positive fixed length, or a random
/// range with a positive minimum and a maximum no smaller than it.
pub open spec fn duration_is_valid(d: DurationSpec) -> bool {
    match d {
        DurationSpec::Fixed(value) => !spec_le(value, zero()),
        DurationSpec::Random { random } => !spec_le(random.min, zero()) && !spec_lt(
            random.max,
            random.min,
        ),
    }
}

/// A motion that can run: a polyline has at least two points and a random
/// line's distance range has a positive minimum and a maximum no smaller
/// than it; every other motion can.
pub open spec fn motion_is_valid(m: Motion) -> bool {
    match m {
        Motion::Path { path: PathSpec::Polyline { points } } => points@.len() >= 2,
        Motion::Path { path: PathSpec::RandomLine { distance_mm, .. } } => !spec_le(
            distance_mm.min,
            zero(),
        ) && !spec_lt(distance_mm.max, distance_mm.min),
        _ => true,
    }
}

/// A step whose motion (when shown) can run and whose duration can be drawn.
pub open spec fn step_is_valid(step: Step) -> bool {
    match step {
        Step::Show { duration_secs, motion } => motion_is_valid(motion) && duration_is_valid(
            duration_secs,
        ),
        Step::Hide { duration_secs } => duration_is_valid(duration_secs),
    }
}

/// A target with an id, a positive radius, and a non-empty sequence whose
/// every step is valid.
pub open spec fn target_is_valid(t: TargetDefinition) -> bool {
    &&& t.id@.len() > 0
    &&& t.sequence@.len() > 0
    &&& !spec_le(t.display.radius_mm, zero())
    &&& forall|j: int| 0 <= j < t.sequence@.len() ==> step_is_valid(#[trigger] t.sequence@[j])
}

proof fn lemma_steps_error_none(steps: Seq<Step>)
    ensures
        steps_error(steps) is None <==> forall|j: int| 0 <= j < steps.len() ==> step_is_valid(
            #[trigger] steps[j],
        ),
    decreases steps.len(),
{
    if steps.len() > 0 {
        let rest = steps.drop_first();
        lemma_steps_error_none(rest);
        assert(step_error(steps[0]) is None <==> step_is_valid(steps[0]));
        if forall|j: int| 0 <= j < steps.len() ==> step_is_valid(#[trigger] steps[j]) {
            assert forall|j: int| 0 <= j < rest.len() implies step_is_valid(#[trigger] rest[j]) by {
                assert(rest[j] == steps[j + 1]);
            }
        }
        if steps_error(steps) is None {
            assert forall|j: int| 0 <= j < steps.len() implies step_is_valid(#[trigger] steps[j]) by {
                if j > 0 {
                    assert(steps[j] == rest[j - 1]);
                }
            }
        }
    }
}

proof fn lemma_targets_error_none(ts: Seq<TargetDefinition>)
    ensures
        targets_error(ts) is None <==> forall|i: int| 0 <= i < ts.len() ==> target_is_valid(
            #[trigger] ts[i],
        ),
    decreases ts.len(),
{
    if ts.len() > 0 {
        let rest = ts.drop_first();
        lemma_targets_error_none(rest);
        lemma_steps_error_none(ts[0].sequence@);
        assert(target_error(ts[0]) is None <==> target_is_valid(ts[0]));
        if forall|i: int| 0 <= i < ts.len() ==> target_is_valid(#[trigger] ts[i]) {
            assert forall|i: int| 0 <= i < rest.len() implies target_is_valid(#[trigger] rest[i]) by {
                assert(rest[i] == ts[i + 1]);
            }
        }
        if targets_error(ts) is None {
            assert forall|i: int| 0 <= i < ts.len() implies target_is_valid(#[trigger] ts[i]) by {
                if i > 0 {
                    assert(ts[i] == rest[i - 1]);
                }
            }
        }
    }
}

/// A scenario is accepted exactly when its arena has positive sides, it
/// defines at least one target, and every one of its targets (not only the
/// first) has an id, a positive radius and a non-empty sequence of steps
/// whose motions can run and whose durations are positive.
pub proof fn lemma_accepted_scenarios_are_valid_throughout(s: Scenario)
    ensures
        scenario_error(s) is None <==> {
            &&& !spec_le(s.arena.width_mm, zero())
            &&& !spec_le(s.arena.height_mm, zero())
            &&& s.targets@.len() > 0
            &&& forall|i: int| 0 <= i < s.targets@.len() ==> target_is_valid(#[trigger] s.targets@[i])
        },
{
    lemma_targets_error_none(s.targets@);
}

} // verus!
