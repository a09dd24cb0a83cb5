//! The engine: one scenario's live session, or the playback of a recorded
//! one, with its scoreboard, target snapshots and recording.
//!
//! Where a target is at a given moment, how far an impact lands from it, and
//! how a hit target shrinks or skips ahead are binary64 arithmetic done by
//! the caller: it hands the engine the evaluated target states and distances,
//! and performs the hit actions the engine returns. Every decision is made
//! here.
use vstd::prelude::*;

use crate::double::{spec_le, zero, Double};
use crate::ids::{engine_session_id, generated_session_id};
use crate::live::{
    begins_appearance, closest, closest_visible, hits_before, id_strictly_sorted,
    lemma_sort_by_id_permutes, lemma_sort_by_id_strict, register_hit, sort_by_id, sort_targets,
    Candidate, Mode, SessionFlags,
};
use crate::names::EngineError;
use crate::protocol::{
    impact, is_impact_of, is_result_of, is_session_start_of, is_target_spawn_of,
    is_target_update_of, result, same_text, session_start, target_spawn, target_update, Envelope,
};
use crate::scenario::{scenario_error, Arena, Scenario, TargetDefinition, TargetState};
use crate::session::{
    apply_update, bumped, clamp_time, clamped_time, clone_envelope, clone_envelopes, distinct_ids,
    clone_snapshots, due_end, first_start, hits_after, infinity, is_result, is_spawn,
    is_stand_in_start, is_start, is_update, lemma_counts_concat, lemma_first_start_is_start,
    lemma_playback_counts_recorded_results, lemma_replay_reproduces_motion, lemma_replayed_concat,
    lemma_results_concat,
    lemma_replay_keeps_targets, lemma_spawned_targets_distinct, lemma_spawns_are_spawns,
    misses_after, playable_in, reads_as_hit, replay_header, replay_parts, replayed_targets,
    result_event_matches, results_of, snapshots_of_spawns, sort_by_time, spawns_in,
    targets_from_spawns, text_or, time_sorted, upsert_all, upsert_snapshot, Replay, ScoreEvent, Snapshot,
    TargetSnapshot,
};

verus! {

/// What the engine keeps of one target beside the scenario: the clock offset
/// that skips a destroyed appearance ahead, the hits left in the current
/// appearance, its current (possibly shrunk) radius, and the `(cycle, step)`
/// last seen while shown.
#[derive(Debug, Clone, Copy)]
pub struct TargetRuntime {
    pub time_offset: Double,
    pub hits_remaining: Option<u32>,
    pub radius_mm: Double,
    pub life: (u64, usize),
}

/// A target's runtime under its id.
#[derive(Debug, Clone)]
pub struct RuntimeEntry {
    pub id: String,
    pub runtime: TargetRuntime,
}

/// The runtime of a fresh target: no offset, its full hit budget, its base
/// radius, and no appearance seen yet.
pub open spec fn fresh_runtime(t: TargetDefinition) -> TargetRuntime {
    TargetRuntime {
        time_offset: zero(),
        hits_remaining: match t.durability {
            Some(d) => Some(d.hits_to_destroy),
            None => None,
        },
        radius_mm: t.display.radius_mm,
        life: (u64::MAX, usize::MAX),
    }
}

/// The position of the first runtime with id `id`, or `rs.len()`.
pub open spec fn runtime_index(rs: Seq<RuntimeEntry>, id: Seq<char>) -> int
    decreases rs.len(),
{
    if rs.len() == 0 {
        0
    } else if rs[0].id@ == id {
        0
    } else {
        1 + runtime_index(rs.drop_first(), id)
    }
}

/// `e` put in place of the runtime with its id, or appended.
pub open spec fn runtime_upsert(rs: Seq<RuntimeEntry>, e: RuntimeEntry) -> Seq<RuntimeEntry> {
    let k = runtime_index(rs, e.id@);
    if k < rs.len() {
        rs.update(k, e)
    } else {
        rs.push(e)
    }
}

/// One fresh runtime per target id; a later target with an id replaces an
/// earlier one's.
pub open spec fn initial_runtimes(defs: Seq<TargetDefinition>) -> Seq<RuntimeEntry>
    decreases defs.len(),
{
    if defs.len() == 0 {
        Seq::empty()
    } else {
        runtime_upsert(
            initial_runtimes(defs.drop_last()),
            RuntimeEntry { id: defs.last().id, runtime: fresh_runtime(defs.last()) },
        )
    }
}

/// The hidden snapshot of a target before its session starts, at the arena centre.
pub open spec fn initial_snapshot(t: TargetDefinition, cx: Double, cy: Double) -> TargetSnapshot {
    TargetSnapshot {
        id: t.id,
        x_mm: cx,
        y_mm: cy,
        radius_mm: t.display.radius_mm,
        visible: false,
        shape: t.display.shape,
        fill: t.display.fill,
        stroke: t.display.stroke,
    }
}

/// One snapshot per target id, at the arena centre.
pub open spec fn initial_targets(defs: Seq<TargetDefinition>, cx: Double, cy: Double) -> Seq<
    TargetSnapshot,
> {
    upsert_all(Seq::empty(), defs.map_values(|t: TargetDefinition| initial_snapshot(t, cx, cy)))
}

/// Every target of the scenario has its runtime.
pub open spec fn runtimes_cover(rs: Seq<RuntimeEntry>, defs: Seq<TargetDefinition>) -> bool {
    forall|i: int| 0 <= i < defs.len() ==> runtime_index(rs, #[trigger] defs[i].id@) < rs.len()
}

proof fn lemma_runtime_index(rs: Seq<RuntimeEntry>, id: Seq<char>)
    ensures
        0 <= runtime_index(rs, id) <= rs.len(),
        runtime_index(rs, id) < rs.len() ==> rs[runtime_index(rs, id)].id@ == id,
        forall|k: int| 0 <= k < runtime_index(rs, id) ==> (#[trigger] rs[k]).id@ != id,
    decreases rs.len(),
{
    if rs.len() > 0 && rs[0].id@ != id {
        let t = rs.drop_first();
        lemma_runtime_index(t, id);
        assert forall|k: int| 0 <= k < runtime_index(rs, id) implies (#[trigger] rs[k]).id@ != id by {
            if k > 0 {
                assert(rs[k] == t[k - 1]);
            }
        }
    }
}

/// The runtime index is determined by the ids alone.
proof fn lemma_runtime_index_ids(a: Seq<RuntimeEntry>, b: Seq<RuntimeEntry>, id: Seq<char>)
    requires
        a.len() == b.len(),
        forall|k: int| 0 <= k < a.len() ==> (#[trigger] a[k]).id@ == b[k].id@,
    ensures
        runtime_index(a, id) == runtime_index(b, id),
    decreases a.len(),
{
    if a.len() > 0 {
        assert(a[0].id@ == b[0].id@);
        assert forall|k: int| 0 <= k < a.drop_first().len() implies (#[trigger] a.drop_first()[k]).id@
            == b.drop_first()[k].id@ by {
            assert(a.drop_first()[k] == a[k + 1]);
            assert(b.drop_first()[k] == b[k + 1]);
        }
        lemma_runtime_index_ids(a.drop_first(), b.drop_first(), id);
    }
}

proof fn lemma_upsert_keeps_cover(rs: Seq<RuntimeEntry>, e: RuntimeEntry, id: Seq<char>)
    ensures
        runtime_index(rs, id) < rs.len() || id == e.id@ ==> runtime_index(
            runtime_upsert(rs, e),
            id,
        ) < runtime_upsert(rs, e).len(),
{
    lemma_runtime_index(rs, e.id@);
    lemma_runtime_index(rs, id);
    let u = runtime_upsert(rs, e);
    lemma_runtime_index(u, id);
    let k = runtime_index(rs, e.id@);
    if runtime_index(rs, id) < rs.len() {
        let j = runtime_index(rs, id);
        if runtime_index(u, id) >= u.len() {
            assert(u[j].id@ == id);
        }
    } else if id == e.id@ {
        if k < rs.len() {
            assert(u[k].id@ == id);
        } else {
            assert(u[rs.len() as int].id@ == id);
        }
        if runtime_index(u, id) >= u.len() {
            assert(false);
        }
    }
}

proof fn lemma_initial_runtimes_cover(defs: Seq<TargetDefinition>)
    ensures
        runtimes_cover(initial_runtimes(defs), defs),
    decreases defs.len(),
{
    if defs.len() > 0 {
        let d = defs.drop_last();
        lemma_initial_runtimes_cover(d);
        let e = RuntimeEntry { id: defs.last().id, runtime: fresh_runtime(defs.last()) };
        assert forall|i: int| 0 <= i < defs.len() implies runtime_index(
            initial_runtimes(defs),
            #[trigger] defs[i].id@,
        ) < initial_runtimes(defs).len() by {
            if i < d.len() {
                assert(d[i] == defs[i]);
            }
            lemma_upsert_keeps_cover(initial_runtimes(d), e, defs[i].id@);
        }
    }
}

/// A snapshot moved to where a state says its target is, when the ids match.
pub open spec fn placed(t: TargetSnapshot, p: TargetState) -> TargetSnapshot {
    if t.id@ == p.id@ {
        TargetSnapshot { x_mm: p.x_mm, y_mm: p.y_mm, visible: p.visible, radius_mm: p.radius_mm, ..t }
    } else {
        t
    }
}

/// The snapshots after placing each state in turn.
pub open spec fn placed_all(ts: Seq<TargetSnapshot>, ps: Seq<TargetState>) -> Seq<TargetSnapshot>
    decreases ps.len(),
{
    if ps.len() == 0 {
        ts
    } else {
        placed_all(ts, ps.drop_last()).map_values(|t: TargetSnapshot| placed(t, ps.last()))
    }
}

/// Each target's runtime, when it has one, reset to a fresh one, in turn.
pub open spec fn reset_runtimes(rs: Seq<RuntimeEntry>, defs: Seq<TargetDefinition>) -> Seq<
    RuntimeEntry,
>
    decreases defs.len(),
{
    if defs.len() == 0 {
        rs
    } else {
        let prev = reset_runtimes(rs, defs.drop_last());
        let k = runtime_index(prev, defs.last().id@);
        if k < prev.len() {
            prev.update(k, RuntimeEntry { id: prev[k].id, runtime: fresh_runtime(defs.last()) })
        } else {
            prev
        }
    }
}

proof fn lemma_reset_keeps_ids(rs: Seq<RuntimeEntry>, defs: Seq<TargetDefinition>)
    ensures
        reset_runtimes(rs, defs).len() == rs.len(),
        forall|k: int| 0 <= k < rs.len() ==> (#[trigger] reset_runtimes(rs, defs)[k]).id == rs[k].id,
    decreases defs.len(),
{
    if defs.len() > 0 {
        lemma_reset_keeps_ids(rs, defs.drop_last());
        let prev = reset_runtimes(rs, defs.drop_last());
        let k = runtime_index(prev, defs.last().id@);
        let r = reset_runtimes(rs, defs);
        lemma_runtime_index(prev, defs.last().id@);
        assert forall|j: int| 0 <= j < rs.len() implies (#[trigger] r[j]).id == rs[j].id by {
            assert(prev[j].id == rs[j].id);
            if k < prev.len() && j == k {
                assert(r[j].id == prev[k].id);
            } else {
                assert(r[j] == prev[j]);
            }
        }
    }
}

/// Restarting gives every target a fresh runtime: the runtime under each
/// target's id (the last definition with that id) has no clock offset,
/// the target's full hit budget (its `hits_to_destroy`, or none when it
/// cannot be destroyed), its base radius, and no appearance seen, whatever
/// the runtimes held before.
pub proof fn lemma_reset_gives_fresh_runtimes(rs: Seq<RuntimeEntry>, defs: Seq<TargetDefinition>)
    requires
        runtimes_cover(rs, defs),
    ensures
        forall|i: int|
            0 <= i < defs.len() && (forall|j: int|
                i < j < defs.len() ==> (#[trigger] defs[j]).id@ != defs[i].id@) ==> {
                let r = reset_runtimes(rs, defs);
                let k = runtime_index(r, (#[trigger] defs[i]).id@);
                &&& 0 <= k < r.len()
                &&& r[k].id@ == defs[i].id@
                &&& r[k].runtime.time_offset == zero()
                &&& r[k].runtime.hits_remaining == match defs[i].durability {
                    Some(d) => Some(d.hits_to_destroy),
                    None => None,
                }
                &&& r[k].runtime.radius_mm == defs[i].display.radius_mm
                &&& r[k].runtime.life == (u64::MAX, usize::MAX)
            },
    decreases defs.len(),
{
    if defs.len() > 0 {
        let d = defs.drop_last();
        assert(runtimes_cover(rs, d)) by {
            assert forall|i: int| 0 <= i < d.len() implies runtime_index(rs, #[trigger] d[i].id@)
                < rs.len() by {
                assert(d[i] == defs[i]);
            }
        }
        lemma_reset_gives_fresh_runtimes(rs, d);
        lemma_reset_keeps_ids(rs, d);
        lemma_reset_keeps_ids(rs, defs);
        let prev = reset_runtimes(rs, d);
        let r = reset_runtimes(rs, defs);
        let last = defs.last();
        assert(runtime_index(rs, defs[defs.len() - 1].id@) < rs.len());
        assert forall|m: int| 0 <= m < rs.len() implies (#[trigger] rs[m]).id@ == prev[m].id@ by {
            assert(prev[m].id == rs[m].id);
        }
        assert forall|m: int| 0 <= m < prev.len() implies (#[trigger] prev[m]).id@ == r[m].id@ by {
            assert(prev[m].id == rs[m].id);
            assert(r[m].id == rs[m].id);
        }
        lemma_runtime_index_ids(rs, prev, last.id@);
        let kl = runtime_index(prev, last.id@);
        lemma_runtime_index(prev, last.id@);
        assert forall|i: int|
            0 <= i < defs.len() && (forall|j: int|
                i < j < defs.len() ==> (#[trigger] defs[j]).id@ != defs[i].id@) implies {
                let k = runtime_index(r, (#[trigger] defs[i]).id@);
                &&& 0 <= k < r.len()
                &&& r[k].id@ == defs[i].id@
                &&& r[k].runtime.time_offset == zero()
                &&& r[k].runtime.hits_remaining == match defs[i].durability {
                    Some(d) => Some(d.hits_to_destroy),
                    None => None,
                }
                &&& r[k].runtime.radius_mm == defs[i].display.radius_mm
                &&& r[k].runtime.life == (u64::MAX, usize::MAX)
            } by {
            lemma_runtime_index_ids(prev, r, defs[i].id@);
            if i == defs.len() - 1 {
                assert(r == prev.update(
                    kl,
                    RuntimeEntry { id: prev[kl].id, runtime: fresh_runtime(last) },
                ));
            } else {
                assert(d[i] == defs[i]);
                assert forall|j: int| i < j < d.len() implies (#[trigger] d[j]).id@ != d[i].id@ by {
                    assert(d[j] == defs[j]);
                    assert(defs[j].id@ != defs[i].id@);
                }
                let ki = runtime_index(prev, d[i].id@);
                assert(defs[defs.len() - 1].id@ != defs[i].id@);
                assert(ki != kl);
                assert(r[ki] == prev[ki]);
            }
        }
    }
}

proof fn lemma_same_ids_cover(a: Seq<RuntimeEntry>, b: Seq<RuntimeEntry>, defs: Seq<TargetDefinition>)
    requires
        a.len() == b.len(),
        forall|k: int| 0 <= k < a.len() ==> (#[trigger] a[k]).id == b[k].id,
        runtimes_cover(a, defs),
    ensures
        runtimes_cover(b, defs),
{
    assert forall|i: int| 0 <= i < defs.len() implies runtime_index(b, #[trigger] defs[i].id@)
        < b.len() by {
        assert forall|k: int| 0 <= k < a.len() implies (#[trigger] a[k]).id@ == b[k].id@ by {
            assert(a[k].id == b[k].id);
        }
        lemma_runtime_index_ids(a, b, defs[i].id@);
    }
}

/// A runtime after seeing its target's state: when a shown target has begun
/// a new appearance (its `(cycle, step)` differs from the last one seen
/// shown), the hits left and the radius reset to the target's base values.
pub open spec fn observed(rt: TargetRuntime, t: TargetDefinition, s: TargetState) -> TargetRuntime {
    if s.visible && rt.life != (s.cycle, s.step_index) {
        TargetRuntime {
            life: (s.cycle, s.step_index),
            hits_remaining: fresh_runtime(t).hits_remaining,
            radius_mm: t.display.radius_mm,
            ..rt
        }
    } else {
        rt
    }
}

/// The runtimes after target `t`'s runtime sees state `s`.
pub open spec fn observe(rs: Seq<RuntimeEntry>, t: TargetDefinition, s: TargetState) -> Seq<
    RuntimeEntry,
> {
    let k = runtime_index(rs, t.id@);
    if k < rs.len() {
        rs.update(k, RuntimeEntry { id: rs[k].id, runtime: observed(rs[k].runtime, t, s) })
    } else {
        rs
    }
}

/// The runtimes after the first `k` targets see their states, in order.
pub open spec fn observe_upto(
    rs: Seq<RuntimeEntry>,
    defs: Seq<TargetDefinition>,
    states: Seq<TargetState>,
    k: int,
) -> Seq<RuntimeEntry>
    decreases k,
{
    if k <= 0 {
        rs
    } else {
        observe(observe_upto(rs, defs, states, k - 1), defs[k - 1], states[k - 1])
    }
}

/// The radius target `i` is drawn and scored with: its runtime's radius once
/// it has seen its state.
pub open spec fn seen_radius(
    rs: Seq<RuntimeEntry>,
    defs: Seq<TargetDefinition>,
    states: Seq<TargetState>,
    i: int,
) -> Double {
    let r = observe_upto(rs, defs, states, i + 1);
    let k = runtime_index(r, defs[i].id@);
    if k < r.len() {
        r[k].runtime.radius_mm
    } else {
        defs[i].display.radius_mm
    }
}

/// Live updates and impacts are taken: a running live session.
pub open spec fn live_active(f: SessionFlags) -> bool {
    f.mode == Mode::Live && f.running
}

/// Playback advances: a running replay.
pub open spec fn replay_active(f: SessionFlags) -> bool {
    f.mode == Mode::Replay && f.running
}

proof fn lemma_observe_keeps_ids(rs: Seq<RuntimeEntry>, t: TargetDefinition, s: TargetState)
    ensures
        observe(rs, t, s).len() == rs.len(),
        forall|k: int| 0 <= k < rs.len() ==> (#[trigger] observe(rs, t, s)[k]).id == rs[k].id,
{
    lemma_runtime_index(rs, t.id@);
}

proof fn lemma_observe_upto_keeps_ids(
    rs: Seq<RuntimeEntry>,
    defs: Seq<TargetDefinition>,
    states: Seq<TargetState>,
    n: int,
)
    ensures
        observe_upto(rs, defs, states, n).len() == rs.len(),
        forall|k: int|
            0 <= k < rs.len() ==> (#[trigger] observe_upto(rs, defs, states, n)[k]).id == rs[k].id,
    decreases n,
{
    if n > 0 {
        lemma_observe_upto_keeps_ids(rs, defs, states, n - 1);
        let prev = observe_upto(rs, defs, states, n - 1);
        lemma_observe_keeps_ids(prev, defs[n - 1], states[n - 1]);
    }
}

/// The scoreboard after one scored impact.
pub open spec fn scored(f: SessionFlags, hit: bool) -> SessionFlags {
    SessionFlags {
        hits: if hit {
            bumped(f.hits)
        } else {
            f.hits
        },
        misses: if hit {
            f.misses
        } else {
            bumped(f.misses)
        },
        ..f
    }
}

/// The position of the first target definition with id `id`, or `defs.len()`.
pub open spec fn def_index(defs: Seq<TargetDefinition>, id: Seq<char>) -> int
    decreases defs.len(),
{
    if defs.len() == 0 {
        0
    } else if defs[0].id@ == id {
        0
    } else {
        1 + def_index(defs.drop_first(), id)
    }
}

/// The targets as an impact sees them: shown or not, and the distance from
/// the impact to each.
pub open spec fn impact_candidates(states: Seq<TargetState>, distances: Seq<Double>) -> Seq<
    Candidate,
> {
    Seq::new(
        states.len(),
        |i: int| Candidate { visible: states[i].visible, distance_mm: distances[i] },
    )
}

/// What the caller does for a landed hit on a destructible target, with
/// binary64 arithmetic, before handing the result back.
#[derive(Debug, Clone)]
pub enum HitAction {
    /// The hit did not destroy the target: its radius becomes
    /// `max(radius_mm * shrink_per_hit, base_radius_mm * min_radius_factor)`
    /// (give it to `set_radius`).
    Shrink {
        target_id: String,
        radius_mm: Double,
        shrink_per_hit: Double,
        base_radius_mm: Double,
        min_radius_factor: Double,
    },
    /// The hit destroyed the target's appearance: its clock offset becomes
    /// `time_offset + remaining_in_step_secs + 1e-6`, so that it skips to what
    /// comes next in its sequence (give it to `set_time_offset`).
    Skip { target_id: String, time_offset: Double, remaining_in_step_secs: Double },
}

/// A scored impact and what is left for the caller to do.
pub struct ImpactOutcome {
    pub event: ScoreEvent,
    pub action: Option<HitAction>,
}

fn observe_targets(
    rs: &mut Vec<RuntimeEntry>,
    defs: &Vec<TargetDefinition>,
    states: &Vec<TargetState>,
) -> (radii: Vec<Double>)
    requires
        states@.len() == defs@.len(),
    ensures
        final(rs)@ == observe_upto(old(rs)@, defs@, states@, defs@.len() as int),
        radii@.len() == defs@.len(),
        forall|i: int|
            0 <= i < defs@.len() ==> #[trigger] radii@[i] == seen_radius(old(rs)@, defs@, states@, i),
{
    let n = defs.len();
    let ghost rs0 = rs@;
    let mut radii: Vec<Double> = Vec::new();
    let mut i: usize = 0;
    while i < n
        invariant
            n == defs@.len(),
            n == states@.len(),
            i <= n,
            rs@ == observe_upto(rs0, defs@, states@, i as int),
            radii@.len() == i,
            forall|j: int| 0 <= j < i ==> #[trigger] radii@[j] == seen_radius(rs0, defs@, states@, j),
        decreases n - i,
    {
        let t = &defs[i];
        let s = &states[i];
        let k = find_runtime(rs, t.id.as_str());
        let ghost before = rs@;
        proof {
            lemma_runtime_index(rs@, t.id@);
        }
        let radius = if k < rs.len() {
            let rt = rs[k].runtime;
            let life = (s.cycle, s.step_index);
            let seen = if begins_appearance(rt.life, life, s.visible) {
                TargetRuntime {
                    life,
                    hits_remaining: fresh_runtime_of(t).hits_remaining,
                    radius_mm: t.display.radius_mm,
                    ..rt
                }
            } else {
                rt
            };
            let id = rs[k].id.clone();
            rs.set(k, RuntimeEntry { id, runtime: seen });
            seen.radius_mm
        } else {
            t.display.radius_mm
        };
        proof {
            assert(rs@ == observe(before, defs@[i as int], states@[i as int]));
            lemma_observe_keeps_ids(before, defs@[i as int], states@[i as int]);
            assert forall|m: int| 0 <= m < before.len() implies (#[trigger] before[m]).id@
                == rs@[m].id@ by {
                assert(rs@[m].id == before[m].id);
            }
            lemma_runtime_index_ids(before, rs@, t.id@);
            assert(radius == seen_radius(rs0, defs@, states@, i as int));
        }
        radii.push(radius);
        i = i + 1;
    }
    radii
}

proof fn lemma_def_index(defs: Seq<TargetDefinition>, id: Seq<char>)
    ensures
        0 <= def_index(defs, id) <= defs.len(),
        def_index(defs, id) < defs.len() ==> defs[def_index(defs, id)].id@ == id,
        forall|k: int| 0 <= k < def_index(defs, id) ==> (#[trigger] defs[k]).id@ != id,
    decreases defs.len(),
{
    if defs.len() > 0 && defs[0].id@ != id {
        let t = defs.drop_first();
        lemma_def_index(t, id);
        assert forall|k: int| 0 <= k < def_index(defs, id) implies (#[trigger] defs[k]).id@ != id by {
            if k > 0 {
                assert(defs[k] == t[k - 1]);
            }
        }
    }
}

fn find_def(defs: &Vec<TargetDefinition>, id: &str) -> (k: usize)
    ensures
        k == def_index(defs@, id@),
{
    let mut i: usize = 0;
    proof {
        lemma_def_index(defs@, id@);
    }
    while i < defs.len()
        invariant
            i <= defs@.len(),
            i <= def_index(defs@, id@),
            0 <= def_index(defs@, id@) <= defs@.len(),
            def_index(defs@, id@) < defs@.len() ==> defs@[def_index(defs@, id@)].id@ == id@,
            forall|k: int| 0 <= k < def_index(defs@, id@) ==> (#[trigger] defs@[k]).id@ != id@,
        decreases defs@.len() - i,
    {
        if same_text(defs[i].id.as_str(), id) {
            return i;
        }
        i = i + 1;
    }
    i
}

/// What a scored impact leaves of the runtimes, the hits left it reports,
/// and the action it asks of the caller: nothing on a miss or on an
/// indestructible target; otherwise the target (the runtime with its id)
/// takes one hit from its budget (the hits recorded, or the full budget),
/// and is destroyed, to skip ahead, when at most one hit was left, or else
/// shrinks (by the first target definition with its id).
pub open spec fn hit_applied(
    rs1: Seq<RuntimeEntry>,
    defs: Seq<TargetDefinition>,
    id: Seq<char>,
    hit: bool,
    remaining_in_step_secs: Double,
    rs2: Seq<RuntimeEntry>,
    hits_remaining: Option<u32>,
    action: Option<HitAction>,
) -> bool {
    let f = def_index(defs, id);
    if !hit || defs[f].durability is None {
        &&& rs2 == rs1
        &&& hits_remaining is None
        &&& action is None
    } else {
        let d = defs[f].durability->0;
        let k = runtime_index(rs1, id);
        let rt = rs1[k].runtime;
        let before = hits_before(rt.hits_remaining, d);
        let destroyed = before <= 1;
        let left: u32 = if destroyed {
            0
        } else {
            (before - 1) as u32
        };
        &&& k < rs1.len()
        &&& rs2 == rs1.update(
            k,
            RuntimeEntry { id: rs1[k].id, runtime: TargetRuntime { hits_remaining: Some(left), ..rt } },
        )
        &&& hits_remaining == Some(left)
        &&& match action {
            Some(HitAction::Skip { target_id, time_offset, remaining_in_step_secs: r }) => {
                &&& destroyed
                &&& target_id@ == id
                &&& time_offset == rt.time_offset
                &&& r == remaining_in_step_secs
            },
            Some(
                HitAction::Shrink {
                    target_id,
                    radius_mm,
                    shrink_per_hit,
                    base_radius_mm,
                    min_radius_factor,
                },
            ) => {
                &&& !destroyed
                &&& target_id@ == id
                &&& radius_mm == rt.radius_mm
                &&& shrink_per_hit == d.shrink_per_hit
                &&& base_radius_mm == defs[f].display.radius_mm
                &&& min_radius_factor == d.min_radius_factor
            },
            None => false,
        }
    }
}

/// A live impact at (clamped) time `t` scored as the engine scores it: every
/// target sees its state, the impact is scored against the nearest shown
/// target (a hit when its distance is at most the target's current radius),
/// the hit is applied, the scoreboard counts it, and the `impact` and
/// `result` envelopes are recorded.
pub open spec fn impact_scored(
    old: EngineView,
    new: EngineView,
    t: Double,
    impact_id: Seq<char>,
    x_mm: Double,
    y_mm: Double,
    states: Seq<TargetState>,
    distances: Seq<Double>,
    o: ImpactOutcome,
) -> bool {
    let defs = old.scenario.targets@;
    let rs1 = observe_upto(old.runtimes, defs, states, defs.len() as int);
    let ev = o.event;
    let n = old.recording.len() as int;
    &&& match closest(impact_candidates(states, distances)) {
        None => {
            &&& ev.target_id@.len() == 0
            &&& !ev.hit
            &&& ev.distance_mm == infinity()
            &&& ev.hits_remaining is None
            &&& o.action is None
            &&& new.runtimes == rs1
        },
        Some(i) => {
            &&& ev.target_id@ == defs[i].id@
            &&& ev.distance_mm == distances[i]
            &&& ev.hit == spec_le(distances[i], seen_radius(old.runtimes, defs, states, i))
            &&& hit_applied(
                rs1,
                defs,
                defs[i].id@,
                ev.hit,
                states[i].remaining_in_step_secs,
                new.runtimes,
                ev.hits_remaining,
                o.action,
            )
        },
    }
    &&& new.recording.len() == n + 2
    &&& new.recording.subrange(0, n) == old.recording
    &&& is_impact_of(new.recording[n], t, "mouse"@, impact_id, x_mm, y_mm)
    &&& is_result_of(
        new.recording[n + 1],
        t,
        ev.target_id@,
        impact_id,
        ev.hit,
        ev.distance_mm,
        x_mm,
        y_mm,
        ev.hits_remaining,
    )
    &&& new == (EngineView {
        runtimes: new.runtimes,
        recording: new.recording,
        flags: scored(old.flags, ev.hit),
        ..old
    })
}

/// A missed impact consumes nothing: it reports no hits left and asks no
/// action, and every runtime is left as watching the targets' states
/// leaves it. A hit on a target reports, when the target is destructible,
/// the hits left that its runtime now records, one fewer than before unless
/// none were left; the other runtimes are untouched.
pub proof fn lemma_only_hits_consume(
    old: EngineView,
    new: EngineView,
    t: Double,
    impact_id: Seq<char>,
    x_mm: Double,
    y_mm: Double,
    states: Seq<TargetState>,
    distances: Seq<Double>,
    o: ImpactOutcome,
)
    requires
        impact_scored(old, new, t, impact_id, x_mm, y_mm, states, distances, o),
        states.len() == old.scenario.targets@.len(),
        distances.len() == states.len(),
    ensures
        !o.event.hit ==> {
            &&& o.event.hits_remaining is None
            &&& o.action is None
            &&& new.runtimes == observe_upto(
                old.runtimes,
                old.scenario.targets@,
                states,
                old.scenario.targets@.len() as int,
            )
        },
        o.event.hit && o.event.hits_remaining is Some ==> {
            let rs1 = observe_upto(
                old.runtimes,
                old.scenario.targets@,
                states,
                old.scenario.targets@.len() as int,
            );
            let k = runtime_index(rs1, o.event.target_id@);
            let before = rs1[k].runtime.hits_remaining;
            &&& 0 <= k < rs1.len()
            &&& new.runtimes.len() == rs1.len()
            &&& new.runtimes[k].runtime.hits_remaining == o.event.hits_remaining
            &&& (before matches Some(b) ==> (b > 0 ==> o.event.hits_remaining == Some((b - 1) as u32)))
            &&& forall|m: int| 0 <= m < rs1.len() && m != k ==> #[trigger] new.runtimes[m] == rs1[m]
        },
{
    let defs = old.scenario.targets@;
    match closest(impact_candidates(states, distances)) {
        None => {},
        Some(i) => {
            lemma_runtime_index(
                observe_upto(old.runtimes, defs, states, defs.len() as int),
                defs[i].id@,
            );
        },
    }
}

/// A recorded arena dimension, or its stand-in when the recording lacks it.
pub open spec fn dimension_or(d: Option<Double>, stand_in: Double) -> Double {
    match d {
        Some(v) => v,
        None => stand_in,
    }
}

proof fn lemma_other_kinds_are_not_results()
    ensures
        "session_start"@ != "result"@,
        "target_spawn"@ != "result"@,
        "target_update"@ != "result"@,
        "impact"@ != "result"@,
{
    reveal_strlit("session_start");
    reveal_strlit("target_spawn");
    reveal_strlit("target_update");
    reveal_strlit("impact");
    reveal_strlit("result");
    assert("session_start"@.len() != "result"@.len());
    assert("target_spawn"@.len() != "result"@.len());
    assert("target_update"@.len() != "result"@.len());
    assert("impact"@[0] != "result"@[0]);
}

proof fn lemma_no_results(s: Seq<Envelope>)
    requires
        forall|i: int| 0 <= i < s.len() ==> !is_result(#[trigger] s[i]),
    ensures
        results_of(s) == Seq::<Envelope>::empty(),
    decreases s.len(),
{
    if s.len() > 0 {
        let d = s.drop_last();
        assert forall|i: int| 0 <= i < d.len() implies !is_result(#[trigger] d[i]) by {
            assert(d[i] == s[i]);
        }
        lemma_no_results(d);
        assert(!is_result(s[s.len() - 1]));
    }
}

proof fn lemma_no_updates(ts: Seq<TargetSnapshot>, s: Seq<Envelope>)
    requires
        forall|i: int| 0 <= i < s.len() ==> !is_update(#[trigger] s[i]),
    ensures
        replayed_targets(ts, s) == ts,
    decreases s.len(),
{
    if s.len() > 0 {
        let d = s.drop_last();
        assert forall|i: int| 0 <= i < d.len() implies !is_update(#[trigger] d[i]) by {
            assert(d[i] == s[i]);
        }
        lemma_no_updates(ts, d);
        assert(!is_update(s[s.len() - 1]));
    }
}

proof fn lemma_other_kinds_are_not_updates()
    ensures
        "session_start"@ != "target_update"@,
        "target_spawn"@ != "target_update"@,
        "impact"@ != "target_update"@,
        "result"@ != "target_update"@,
{
    reveal_strlit("session_start");
    reveal_strlit("target_spawn");
    reveal_strlit("target_update");
    reveal_strlit("impact");
    reveal_strlit("result");
    assert("session_start"@[0] != "target_update"@[0]);
    assert("target_spawn"@.len() != "target_update"@.len());
    assert("impact"@.len() != "target_update"@.len());
    assert("result"@.len() != "target_update"@.len());
}

/// Targets that keep their ids, one for one, keep them distinct.
proof fn lemma_same_ids_distinct(a: Seq<TargetSnapshot>, b: Seq<TargetSnapshot>)
    requires
        distinct_ids(a),
        b.len() == a.len(),
        forall|i: int| 0 <= i < a.len() ==> (#[trigger] b[i]).id@ == a[i].id@,
    ensures
        distinct_ids(b),
{
    assert forall|i: int, j: int| 0 <= i < j < b.len() implies (#[trigger] b[i]).id@
        != (#[trigger] b[j]).id@ by {
        assert(b[i].id@ == a[i].id@ && b[j].id@ == a[j].id@);
    }
}

/// Placing states moves targets but keeps their ids, in order.
proof fn lemma_placed_all_keeps_ids(ts: Seq<TargetSnapshot>, ps: Seq<TargetState>)
    ensures
        placed_all(ts, ps).len() == ts.len(),
        forall|i: int| 0 <= i < ts.len() ==> (#[trigger] placed_all(ts, ps)[i]).id == ts[i].id,
    decreases ps.len(),
{
    if ps.len() > 0 {
        lemma_placed_all_keeps_ids(ts, ps.drop_last());
    }
}

/// Playing envelopes on distinct targets keeps them distinct.
proof fn lemma_replay_keeps_distinct(ts: Seq<TargetSnapshot>, envs: Seq<Envelope>)
    requires
        distinct_ids(ts),
    ensures
        distinct_ids(replayed_targets(ts, envs)),
{
    lemma_replay_keeps_targets(ts, envs);
    lemma_same_ids_distinct(ts, replayed_targets(ts, envs));
}

/// The engine's state as contracts see it.
pub struct EngineView {
    pub scenario: Scenario,
    pub scenario_file: Seq<char>,
    pub session_id: Seq<char>,
    pub flags: SessionFlags,
    pub time: Double,
    pub targets: Seq<TargetSnapshot>,
    pub runtimes: Seq<RuntimeEntry>,
    pub session_start: Envelope,
    pub spawns: Seq<Envelope>,
    pub recording: Seq<Envelope>,
    pub replay: Replay,
}

/// The engine's invariant: every scenario target has its runtime, the
/// playback has not run past its end, the session opens with a
/// `session_start` followed by `target_spawn` envelopes, no two tracked
/// targets share an id, and a replay is finished exactly when all of its
/// playback has been played.
pub open spec fn engine_wf(v: EngineView) -> bool {
    &&& runtimes_cover(v.runtimes, v.scenario.targets@)
    &&& v.replay.cursor <= v.replay.source@.len()
    &&& is_start(v.session_start)
    &&& forall|i: int| 0 <= i < v.spawns.len() ==> is_spawn(#[trigger] v.spawns[i])
    &&& distinct_ids(v.targets)
    &&& (v.flags.mode == Mode::Replay ==> (v.flags.finished <==> v.replay.cursor
        == v.replay.source@.len()))
}

/// The scoreboard counts the recorded results: its hits and misses are
/// those among the `result` envelopes recorded so far.
pub open spec fn scoreboard_matches(v: EngineView) -> bool {
    &&& v.flags.hits == hits_after(0, results_of(v.recording))
    &&& v.flags.misses == misses_after(0, results_of(v.recording))
}

/// The targets are where the recorded updates put them: playing the
/// recording's `target_update` envelopes, in order, on `base` (the targets
/// as the session started) gives them.
pub open spec fn motion_matches(v: EngineView, base: Seq<TargetSnapshot>) -> bool {
    v.targets == replayed_targets(base, v.recording)
}

/// Replaying a live session's recording to its end reproduces its
/// scoreboard: starting from none, the results of the playback (the
/// recording's updates and results, sorted by time) count as many hits and
/// misses as the live session scored.
pub proof fn lemma_replay_reproduces_scoreboard(live: EngineView)
    requires
        scoreboard_matches(live),
    ensures
        hits_after(0, results_of(sort_by_time(playable_in(live.recording)))) == live.flags.hits,
        misses_after(0, results_of(sort_by_time(playable_in(live.recording)))) == live.flags.misses,
{
    lemma_playback_counts_recorded_results(live.recording, 0, 0);
}

/// Replaying a live session's recording moves its targets to where the live
/// session left them: the playback (the recording's updates and results,
/// sorted by time), played on the targets as the session started, gives
/// the live targets, whenever the session recorded in time order (its clock
/// did not run backwards).
pub proof fn lemma_replay_reproduces_live_motion(live: EngineView, base: Seq<TargetSnapshot>)
    requires
        motion_matches(live, base),
        time_sorted(playable_in(live.recording)),
    ensures
        replayed_targets(base, sort_by_time(playable_in(live.recording))) == live.targets,
{
    lemma_replay_reproduces_motion(base, live.recording);
}

/// The portable engine: scenario, session mode and scoreboard, target
/// snapshots and runtimes, the session's envelopes and the playback.
pub struct Engine {
    scenario: Scenario,
    scenario_file: String,
    session_id: String,
    flags: SessionFlags,
    time: Double,
    targets: Vec<TargetSnapshot>,
    runtimes: Vec<RuntimeEntry>,
    session_start_envelope: Envelope,
    target_spawn_envelopes: Vec<Envelope>,
    recording: Vec<Envelope>,
    replay: Replay,
}

impl View for Engine {
    type V = EngineView;

    closed spec fn view(&self) -> EngineView {
        EngineView {
            scenario: self.scenario,
            scenario_file: self.scenario_file@,
            session_id: self.session_id@,
            flags: self.flags,
            time: self.time,
            targets: self.targets@,
            runtimes: self.runtimes@,
            session_start: self.session_start_envelope,
            spawns: self.target_spawn_envelopes@,
            recording: self.recording@,
            replay: self.replay,
        }
    }
}


fn fresh_runtime_of(t: &TargetDefinition) -> (r: TargetRuntime)
    ensures
        r == fresh_runtime(*t),
{
    TargetRuntime {
        time_offset: Double::zero(),
        hits_remaining: match t.durability {
            Some(d) => Some(d.hits_to_destroy),
            None => None,
        },
        radius_mm: t.display.radius_mm,
        life: (u64::MAX, usize::MAX),
    }
}

fn find_runtime(rs: &Vec<RuntimeEntry>, id: &str) -> (k: usize)
    ensures
        k == runtime_index(rs@, id@),
{
    let mut i: usize = 0;
    proof {
        lemma_runtime_index(rs@, id@);
    }
    while i < rs.len()
        invariant
            i <= rs@.len(),
            i <= runtime_index(rs@, id@),
            0 <= runtime_index(rs@, id@) <= rs@.len(),
            runtime_index(rs@, id@) < rs@.len() ==> rs@[runtime_index(rs@, id@)].id@ == id@,
            forall|k: int| 0 <= k < runtime_index(rs@, id@) ==> (#[trigger] rs@[k]).id@ != id@,
        decreases rs@.len() - i,
    {
        if same_text(rs[i].id.as_str(), id) {
            return i;
        }
        i = i + 1;
    }
    i
}

fn upsert_runtime(rs: &mut Vec<RuntimeEntry>, e: RuntimeEntry)
    ensures
        final(rs)@ == runtime_upsert(old(rs)@, e),
{
    let k = find_runtime(rs, e.id.as_str());
    if k < rs.len() {
        rs.set(k, e);
    } else {
        rs.push(e);
    }
}

fn defs_id(t: &TargetDefinition) -> (s: String)
    ensures
        s == t.id,
{
    t.id.clone()
}

impl Engine {
    pub closed spec fn wf(&self) -> bool {
        engine_wf(self@)
    }

    /// What every engine keeps: each tracked target id occurs once, and a
    /// replay is finished exactly when all of its playback has been played.
    pub proof fn lemma_engine_invariant(&self)
        requires
            self.wf(),
        ensures
            distinct_ids(self@.targets),
            self@.flags.mode == Mode::Replay ==> (self@.flags.finished <==> self@.replay.cursor
                == self@.replay.source@.len()),
    {
    }

    /// A new engine for a parsed, validated scenario: a live session not yet
    /// started, every target hidden at the arena centre (`center_x`,
    /// `center_y`, half the arena's width and height), the session's
    /// `session_start` and `target_spawn` envelopes made, nothing recorded.
    pub fn from_scenario(
        scenario: Scenario,
        scenario_file: String,
        session_id: String,
        center_x: Double,
        center_y: Double,
    ) -> (e: Engine)
        ensures
            e.wf(),
            e@.scenario == scenario,
            e@.scenario_file == scenario_file@,
            e@.session_id == session_id@,
            e@.flags == (SessionFlags {
                mode: Mode::Live,
                running: false,
                finished: false,
                hits: 0,
                misses: 0,
            }),
            e@.time == zero(),
            is_session_start_of(
                e@.session_start,
                zero(),
                session_id@,
                scenario.arena.width_mm,
                scenario.arena.height_mm,
                scenario_file@,
            ),
            e@.spawns.len() == scenario.targets@.len(),
            forall|i: int|
                0 <= i < scenario.targets@.len() ==> is_target_spawn_of(
                    #[trigger] e@.spawns[i],
                    zero(),
                    scenario.targets@[i].id@,
                    scenario.targets@[i].display.shape@,
                    scenario.targets@[i].display.radius_mm,
                    scenario.targets@[i].display.fill@,
                    scenario.targets@[i].display.stroke@,
                ),
            e@.targets == initial_targets(scenario.targets@, center_x, center_y),
            e@.runtimes == initial_runtimes(scenario.targets@),
            e@.recording.len() == 0,
            e@.replay.source@.len() == 0,
            e@.replay.cursor == 0,
            e@.replay.targets@.len() == 0,
    {
        let start = session_start(
            Double::zero(),
            session_id.as_str(),
            scenario.arena.width_mm,
            scenario.arena.height_mm,
            scenario_file.as_str(),
        );
        let n = scenario.targets.len();
        let ghost defs = scenario.targets@;
        let ghost snaps = defs.map_values(|t: TargetDefinition| initial_snapshot(t, center_x, center_y));
        let mut spawns: Vec<Envelope> = Vec::new();
        let mut targets: Vec<TargetSnapshot> = Vec::new();
        let mut runtimes: Vec<RuntimeEntry> = Vec::new();
        let mut i: usize = 0;
        while i < n
            invariant
                n == defs.len(),
                defs == scenario.targets@,
                snaps == defs.map_values(|t: TargetDefinition| initial_snapshot(t, center_x, center_y)),
                i <= n,
                spawns@.len() == i,
                forall|j: int|
                    0 <= j < i ==> is_target_spawn_of(
                        #[trigger] spawns@[j],
                        zero(),
                        defs[j].id@,
                        defs[j].display.shape@,
                        defs[j].display.radius_mm,
                        defs[j].display.fill@,
                        defs[j].display.stroke@,
                    ),
                targets@ == upsert_all(Seq::empty(), snaps.subrange(0, i as int)),
                runtimes@ == initial_runtimes(defs.subrange(0, i as int)),
            decreases n - i,
        {
            let t = &scenario.targets[i];
            let sp = target_spawn(
                Double::zero(),
                t.id.as_str(),
                t.display.shape.as_str(),
                t.display.radius_mm,
                t.display.fill.as_str(),
                t.display.stroke.as_str(),
            );
            spawns.push(sp);
            let snap = TargetSnapshot {
                id: defs_id(t),
                x_mm: center_x,
                y_mm: center_y,
                radius_mm: t.display.radius_mm,
                visible: false,
                shape: t.display.shape.clone(),
                fill: t.display.fill.clone(),
                stroke: t.display.stroke.clone(),
            };
            assert(snap == initial_snapshot(defs[i as int], center_x, center_y));
            upsert_snapshot(&mut targets, snap);
            let entry = RuntimeEntry { id: defs_id(t), runtime: fresh_runtime_of(t) };
            upsert_runtime(&mut runtimes, entry);
            proof {
                assert(snaps.subrange(0, i + 1).drop_last() =~= snaps.subrange(0, i as int));
                assert(defs.subrange(0, i + 1).drop_last() =~= defs.subrange(0, i as int));
                assert(defs.subrange(0, i + 1).last() == defs[i as int]);
            }
            i = i + 1;
        }
        proof {
            assert(snaps.subrange(0, n as int) =~= snaps);
            assert(defs.subrange(0, n as int) =~= defs);
            lemma_initial_runtimes_cover(defs);
            lemma_spawned_targets_distinct(snaps);
        }
        Engine {
            scenario,
            scenario_file,
            session_id,
            flags: SessionFlags::new(),
            time: Double::zero(),
            targets,
            runtimes,
            session_start_envelope: start,
            target_spawn_envelopes: spawns,
            recording: Vec::new(),
            replay: Replay::new(Vec::new(), Vec::new()),
        }
    }

    pub fn session_start_envelope(&self) -> (e: &Envelope)
        ensures
            *e == self@.session_start,
    {
        &self.session_start_envelope
    }

    pub fn target_spawn_envelopes(&self) -> (v: &Vec<Envelope>)
        ensures
            v@ == self@.spawns,
    {
        &self.target_spawn_envelopes
    }

    /// Every envelope of the session so far, in the order they were made.
    pub fn recording(&self) -> (v: &Vec<Envelope>)
        ensures
            v@ == self@.recording,
    {
        &self.recording
    }

    /// The scenario the engine runs.
    pub fn scenario(&self) -> (s: &Scenario)
        ensures
            *s == self@.scenario,
    {
        &self.scenario
    }

    /// The mode, run state and scoreboard.
    pub fn flags(&self) -> (f: SessionFlags)
        ensures
            f == self@.flags,
    {
        self.flags
    }

    /// The runtime of the target with id `id`, if it has one.
    pub fn runtime_of(&self, id: &str) -> (r: Option<TargetRuntime>)
        ensures
            ({
                let k = runtime_index(self@.runtimes, id@);
                if k < self@.runtimes.len() {
                    r == Some(self@.runtimes[k].runtime)
                } else {
                    r is None
                }
            }),
    {
        let k = find_runtime(&self.runtimes, id);
        if k < self.runtimes.len() {
            Some(self.runtimes[k].runtime)
        } else {
            None
        }
    }

    /// Names the scenario file in the `session_start` envelope (call before
    /// `start`); nothing else changes.
    pub fn set_scenario_file(&mut self, scenario_file: String)
        requires
            old(self).wf(),
        ensures
            final(self).wf(),
            final(self)@ == (EngineView {
                scenario_file: scenario_file@,
                session_start: final(self)@.session_start,
                ..old(self)@
            }),
            is_session_start_of(
                final(self)@.session_start,
                zero(),
                old(self)@.session_id,
                old(self)@.scenario.arena.width_mm,
                old(self)@.scenario.arena.height_mm,
                scenario_file@,
            ),
    {
        let start = session_start(
            Double::zero(),
            self.session_id.as_str(),
            self.scenario.arena.width_mm,
            self.scenario.arena.height_mm,
            scenario_file.as_str(),
        );
        self.scenario_file = scenario_file;
        self.session_start_envelope = start;
    }

    /// Freezes the session: nothing moves or scores until the next start;
    /// everything else stays as it is.
    pub fn stop(&mut self)
        requires
            old(self).wf(),
        ensures
            final(self).wf(),
            final(self)@ == (EngineView {
                flags: SessionFlags { running: false, ..old(self)@.flags },
                ..old(self)@
            }),
    {
        self.flags.stop();
    }

    /// The state to render: session, mode, clock, arena, scoreboard, and
    /// the targets ordered by id.
    pub fn snapshot(&self) -> (s: Snapshot)
        requires
            self.wf(),
        ensures
            s.session_id@ == self@.session_id,
            s.scenario_name == self@.scenario.name,
            s.scenario_file@ == self@.scenario_file,
            self@.flags.mode == Mode::Live ==> s.mode@ == "live"@,
            self@.flags.mode == Mode::Replay ==> s.mode@ == "replay"@,
            s.running == self@.flags.running,
            s.finished == self@.flags.finished,
            s.time == self@.time,
            s.arena_width_mm == self@.scenario.arena.width_mm,
            s.arena_height_mm == self@.scenario.arena.height_mm,
            s.hits == self@.flags.hits,
            s.misses == self@.flags.misses,
            s.targets@ == sort_by_id(self@.targets),
            s.targets@.to_multiset() == self@.targets.to_multiset(),
            id_strictly_sorted(s.targets@),
    {
        proof {
            lemma_sort_by_id_permutes(self@.targets);
            lemma_sort_by_id_strict(self@.targets);
        }
        Snapshot {
            session_id: self.session_id.clone(),
            scenario_name: self.scenario.name.clone(),
            scenario_file: self.scenario_file.clone(),
            mode: self.flags.mode_name(),
            running: self.flags.running,
            finished: self.flags.finished,
            time: self.time,
            arena_width_mm: self.scenario.arena.width_mm,
            arena_height_mm: self.scenario.arena.height_mm,
            hits: self.flags.hits,
            misses: self.flags.misses,
            targets: sort_targets(clone_snapshots(&self.targets)),
        }
    }

    /// Starts (or restarts) a live session at time zero: scoreboard cleared,
    /// playback dropped, the recording restarted with the `session_start`
    /// and `target_spawn` envelopes, every runtime fresh, and each target
    /// placed where `placements` (the targets' states at time zero) say.
    pub fn start(&mut self, placements: Vec<TargetState>)
        requires
            old(self).wf(),
        ensures
            final(self).wf(),
            final(self)@ == (EngineView {
                flags: SessionFlags {
                    mode: Mode::Live,
                    running: true,
                    finished: false,
                    hits: 0,
                    misses: 0,
                },
                time: zero(),
                targets: placed_all(old(self)@.targets, placements@),
                runtimes: reset_runtimes(old(self)@.runtimes, old(self)@.scenario.targets@),
                recording: seq![old(self)@.session_start] + old(self)@.spawns,
                replay: final(self)@.replay,
                ..old(self)@
            }),
            final(self)@.replay.source@.len() == 0,
            final(self)@.replay.cursor == 0,
            final(self)@.replay.targets@.len() == 0,
            scoreboard_matches(final(self)@),
            motion_matches(final(self)@, final(self)@.targets),
    {
        proof {
            assert(runtimes_cover(old(self)@.runtimes, old(self)@.scenario.targets@));
            let opening = seq![old(self)@.session_start] + old(self)@.spawns;
            lemma_other_kinds_are_not_results();
            assert forall|i: int| 0 <= i < opening.len() implies !is_result(#[trigger] opening[i]) by {
                if i > 0 {
                    assert(opening[i] == old(self)@.spawns[i - 1]);
                    assert(is_spawn(old(self)@.spawns[i - 1]));
                }
            }
            lemma_no_results(opening);
            lemma_other_kinds_are_not_updates();
            assert forall|i: int| 0 <= i < opening.len() implies !is_update(#[trigger] opening[i]) by {
                if i > 0 {
                    assert(opening[i] == old(self)@.spawns[i - 1]);
                    assert(is_spawn(old(self)@.spawns[i - 1]));
                }
            }
            assert forall|ts: Seq<TargetSnapshot>| replayed_targets(ts, opening) == ts by {
                lemma_no_updates(ts, opening);
            }
        }
        let mut recording: Vec<Envelope> = Vec::new();
        recording.push(clone_envelope(&self.session_start_envelope));
        let mut spawns = clone_envelopes(&self.target_spawn_envelopes);
        recording.append(&mut spawns);
        let mut rs: Vec<RuntimeEntry> = Vec::new();
        std::mem::swap(&mut rs, &mut self.runtimes);
        let mut ts: Vec<TargetSnapshot> = Vec::new();
        std::mem::swap(&mut ts, &mut self.targets);
        let defs = &self.scenario.targets;
        let n = defs.len();
        let ghost rs0 = rs@;
        let mut i: usize = 0;
        proof {
            assert(defs@.subrange(0, 0) =~= Seq::<TargetDefinition>::empty());
        }
        while i < n
            invariant
                n == defs@.len(),
                i <= n,
                rs@ == reset_runtimes(rs0, defs@.subrange(0, i as int)),
            decreases n - i,
        {
            let t = &defs[i];
            let k = find_runtime(&rs, t.id.as_str());
            proof {
                let pre = defs@.subrange(0, i as int);
                let post = defs@.subrange(0, i + 1);
                assert(post.drop_last() =~= pre);
                assert(post.last() == defs@[i as int]);
            }
            if k < rs.len() {
                let id = rs[k].id.clone();
                let fresh = fresh_runtime_of(t);
                rs.set(k, RuntimeEntry { id, runtime: fresh });
            }
            i = i + 1;
        }
        proof {
            assert(defs@.subrange(0, n as int) =~= defs@);
            lemma_reset_keeps_ids(rs0, defs@);
            lemma_same_ids_cover(rs0, rs@, defs@);
        }
        let ghost ts0 = ts@;
        let mut j: usize = 0;
        proof {
            assert(placements@.subrange(0, 0) =~= Seq::<TargetState>::empty());
        }
        while j < placements.len()
            invariant
                j <= placements@.len(),
                ts@ == placed_all(ts0, placements@.subrange(0, j as int)),
            decreases placements@.len() - j,
        {
            let p = &placements[j];
            let env = target_update(Double::zero(), p.id.as_str(), p.x_mm, p.y_mm, p.visible, p.radius_mm);
            let ghost before = ts@;
            apply_update(&mut ts, &env);
            proof {
                let pre = placements@.subrange(0, j as int);
                let post = placements@.subrange(0, j + 1);
                assert(post.drop_last() =~= pre);
                assert(post.last() == placements@[j as int]);
                assert(ts@ =~= before.map_values(|t: TargetSnapshot| placed(t, *p)));
            }
            j = j + 1;
        }
        proof {
            assert(placements@.subrange(0, placements@.len() as int) =~= placements@);
            lemma_placed_all_keeps_ids(ts0, placements@);
            lemma_same_ids_distinct(ts0, ts@);
        }
        self.flags.start();
        self.time = Double::zero();
        self.replay = Replay::new(Vec::new(), Vec::new());
        self.recording = recording;
        self.runtimes = rs;
        self.targets = ts;
    }

    /// Advances a live session to `elapsed_seconds` (made at least zero).
    /// `states[i]` is where the scenario puts target `i` at that time plus its
    /// runtime's clock offset. Each target in turn sees its state (a new
    /// appearance resets its hits and radius), its snapshot moves, and a
    /// `target_update` envelope with its current radius is recorded and
    /// returned. A session that is not running live is left as it is.
    pub fn update(&mut self, elapsed_seconds: Double, states: Vec<TargetState>) -> (out: Vec<Envelope>)
        requires
            old(self).wf(),
            states@.len() == old(self)@.scenario.targets@.len(),
        ensures
            final(self).wf(),
            !live_active(old(self)@.flags) ==> final(self)@ == old(self)@ && out@.len() == 0,
            live_active(old(self)@.flags) ==> {
                let now = clamped_time(elapsed_seconds);
                let defs = old(self)@.scenario.targets@;
                &&& out@.len() == defs.len()
                &&& forall|i: int|
                    0 <= i < defs.len() ==> is_target_update_of(
                        #[trigger] out@[i],
                        now,
                        defs[i].id@,
                        states@[i].x_mm,
                        states@[i].y_mm,
                        states@[i].visible,
                        seen_radius(old(self)@.runtimes, defs, states@, i),
                    )
                &&& scoreboard_matches(old(self)@) ==> scoreboard_matches(final(self)@)
                &&& forall|base: Seq<TargetSnapshot>|
                    motion_matches(old(self)@, base) ==> #[trigger] motion_matches(final(self)@, base)
                &&& final(self)@ == (EngineView {
                    time: now,
                    runtimes: observe_upto(old(self)@.runtimes, defs, states@, defs.len() as int),
                    targets: replayed_targets(old(self)@.targets, out@),
                    recording: old(self)@.recording + out@,
                    ..old(self)@
                })
            },
    {
        if !self.flags.live_active() {
            return Vec::new();
        }
        proof {
            assert(runtimes_cover(old(self)@.runtimes, old(self)@.scenario.targets@));
        }
        let now = clamp_time(elapsed_seconds);
        let mut rs: Vec<RuntimeEntry> = Vec::new();
        std::mem::swap(&mut rs, &mut self.runtimes);
        let mut ts: Vec<TargetSnapshot> = Vec::new();
        std::mem::swap(&mut ts, &mut self.targets);
        let mut rec: Vec<Envelope> = Vec::new();
        std::mem::swap(&mut rec, &mut self.recording);
        let defs = &self.scenario.targets;
        let n = defs.len();
        let ghost rs0 = rs@;
        let ghost ts0 = ts@;
        let ghost rec0 = rec@;
        let radii = observe_targets(&mut rs, defs, &states);
        let mut out: Vec<Envelope> = Vec::new();
        let mut i: usize = 0;
        while i < n
            invariant
                n == defs@.len(),
                n == states@.len(),
                n == radii@.len(),
                i <= n,
                forall|j: int| 0 <= j < n ==> #[trigger] radii@[j] == seen_radius(rs0, defs@, states@, j),
                out@.len() == i,
                forall|j: int|
                    0 <= j < i ==> is_target_update_of(
                        #[trigger] out@[j],
                        now,
                        defs@[j].id@,
                        states@[j].x_mm,
                        states@[j].y_mm,
                        states@[j].visible,
                        seen_radius(rs0, defs@, states@, j),
                    ),
                ts@ == replayed_targets(ts0, out@),
                rec@ == rec0 + out@,
            decreases n - i,
        {
            let t = &defs[i];
            let s = &states[i];
            let env = target_update(now, t.id.as_str(), s.x_mm, s.y_mm, s.visible, radii[i]);
            let ghost out_before = out@;
            apply_update(&mut ts, &env);
            rec.push(clone_envelope(&env));
            out.push(env);
            proof {
                assert(out@.drop_last() =~= out_before);
                assert(is_update(out@.last()));
                assert(rec@ =~= rec0 + out@);
            }
            i = i + 1;
        }
        proof {
            lemma_observe_upto_keeps_ids(rs0, defs@, states@, n as int);
            lemma_same_ids_cover(rs0, rs@, defs@);
            lemma_replay_keeps_distinct(ts0, out@);
            lemma_other_kinds_are_not_results();
            assert forall|j: int| 0 <= j < out@.len() implies !is_result(#[trigger] out@[j]) by {
                assert(is_update(out@[j]));
            }
            lemma_no_results(out@);
            lemma_results_concat(rec0, out@);
            assert(results_of(rec0) + Seq::<Envelope>::empty() =~= results_of(rec0));
            assert forall|base: Seq<TargetSnapshot>| ts0 == replayed_targets(base, rec0) implies ts@
                == replayed_targets(base, rec0 + out@) by {
                lemma_replayed_concat(base, rec0, out@);
            }
        }
        self.time = now;
        self.runtimes = rs;
        self.targets = ts;
        self.recording = rec;
        out
    }

    /// Scores an impact at `(x_mm, y_mm)` at `elapsed_seconds` (made at least
    /// zero). `states[i]` is where the scenario puts target `i` at that time
    /// plus its runtime's clock offset, and `distances[i]` the distance from
    /// the impact to that position. Outside a running live session nothing
    /// changes and the impact is a miss on no target at an infinite distance.
    pub fn impact(
        &mut self,
        elapsed_seconds: Double,
        impact_id: &str,
        x_mm: Double,
        y_mm: Double,
        states: Vec<TargetState>,
        distances: Vec<Double>,
    ) -> (o: ImpactOutcome)
        requires
            old(self).wf(),
            states@.len() == old(self)@.scenario.targets@.len(),
            distances@.len() == states@.len(),
        ensures
            final(self).wf(),
            o.event.time == clamped_time(elapsed_seconds),
            o.event.impact_id@ == impact_id@,
            o.event.x_mm == x_mm,
            o.event.y_mm == y_mm,
            !live_active(old(self)@.flags) ==> {
                &&& final(self)@ == old(self)@
                &&& o.event.target_id@.len() == 0
                &&& !o.event.hit
                &&& o.event.distance_mm == infinity()
                &&& o.event.hits_remaining is None
                &&& o.action is None
            },
            live_active(old(self)@.flags) ==> impact_scored(
                old(self)@,
                final(self)@,
                clamped_time(elapsed_seconds),
                impact_id@,
                x_mm,
                y_mm,
                states@,
                distances@,
                o,
            ),
            scoreboard_matches(old(self)@) ==> scoreboard_matches(final(self)@),
            forall|base: Seq<TargetSnapshot>|
                motion_matches(old(self)@, base) ==> #[trigger] motion_matches(final(self)@, base),
    {
        let t = clamp_time(elapsed_seconds);
        if !self.flags.live_active() {
            return ImpactOutcome {
                event: ScoreEvent {
                    time: t,
                    target_id: String::new(),
                    impact_id: impact_id.to_string(),
                    hit: false,
                    distance_mm: Double::infinity(),
                    x_mm,
                    y_mm,
                    hits_remaining: None,
                },
                action: None,
            };
        }
        proof {
            assert(runtimes_cover(old(self)@.runtimes, old(self)@.scenario.targets@));
        }
        let mut rs: Vec<RuntimeEntry> = Vec::new();
        std::mem::swap(&mut rs, &mut self.runtimes);
        let ghost rs0 = rs@;
        let radii = observe_targets(&mut rs, &self.scenario.targets, &states);
        let ghost rs1 = rs@;
        let ghost defs = self.scenario.targets@;
        proof {
            lemma_observe_upto_keeps_ids(rs0, defs, states@, defs.len() as int);
            lemma_same_ids_cover(rs0, rs1, defs);
        }
        let n = states.len();
        let mut cands: Vec<Candidate> = Vec::new();
        let mut j: usize = 0;
        while j < n
            invariant
                n == states@.len(),
                n == distances@.len(),
                j <= n,
                cands@ == impact_candidates(states@, distances@).subrange(0, j as int),
            decreases n - j,
        {
            cands.push(Candidate { visible: states[j].visible, distance_mm: distances[j] });
            assert(cands@ =~= impact_candidates(states@, distances@).subrange(0, j + 1));
            j = j + 1;
        }
        assert(cands@ =~= impact_candidates(states@, distances@));
        proof {
            crate::live::lemma_closest_is_nearest(cands@);
        }
        let winner = closest_visible(&cands);
        let mut target_id = String::new();
        let mut hit = false;
        let mut distance = Double::infinity();
        let mut hits_remaining: Option<u32> = None;
        let mut action: Option<HitAction> = None;
        match winner {
            None => {},
            Some(i) => {
                target_id = self.scenario.targets[i].id.clone();
                distance = distances[i];
                hit = distances[i].le(radii[i]);
                if hit {
                    let f = find_def(&self.scenario.targets, self.scenario.targets[i].id.as_str());
                    proof {
                        lemma_def_index(defs, defs[i as int].id@);
                    }
                    match self.scenario.targets[f].durability {
                        None => {},
                        Some(d) => {
                            let k = find_runtime(&rs, self.scenario.targets[i].id.as_str());
                            proof {
                                lemma_runtime_index(rs1, defs[i as int].id@);
                                assert(runtime_index(rs1, defs[i as int].id@) < rs1.len());
                            }
                            let rt = rs[k].runtime;
                            let outcome = register_hit(rt.hits_remaining, &d);
                            let id = rs[k].id.clone();
                            rs.set(
                                k,
                                RuntimeEntry {
                                    id,
                                    runtime: TargetRuntime {
                                        hits_remaining: Some(outcome.hits_remaining),
                                        ..rt
                                    },
                                },
                            );
                            hits_remaining = Some(outcome.hits_remaining);
                            action =
                                Some(
                                    if outcome.destroyed {
                                        HitAction::Skip {
                                            target_id: self.scenario.targets[i].id.clone(),
                                            time_offset: rt.time_offset,
                                            remaining_in_step_secs: states[i].remaining_in_step_secs,
                                        }
                                    } else {
                                        HitAction::Shrink {
                                            target_id: self.scenario.targets[i].id.clone(),
                                            radius_mm: rt.radius_mm,
                                            shrink_per_hit: d.shrink_per_hit,
                                            base_radius_mm: self.scenario.targets[f].display.radius_mm,
                                            min_radius_factor: d.min_radius_factor,
                                        }
                                    },
                                );
                        },
                    }
                }
            },
        }
        proof {
            assert forall|m: int| 0 <= m < rs0.len() implies (#[trigger] rs0[m]).id == rs@[m].id by {
                assert(rs1[m].id == rs0[m].id);
            }
            lemma_same_ids_cover(rs0, rs@, defs);
        }
        self.flags.score(hit);
        let imp = impact(t, "mouse", impact_id, x_mm, y_mm);
        let res = result(t, target_id.as_str(), impact_id, hit, distance, x_mm, y_mm, hits_remaining);
        let ghost rec0 = self.recording@;
        self.recording.push(imp);
        self.recording.push(res);
        assert(self.recording@.subrange(0, rec0.len() as int) =~= rec0);
        proof {
            let pair = seq![imp, res];
            assert(self.recording@ =~= rec0 + pair);
            lemma_results_concat(rec0, pair);
            lemma_other_kinds_are_not_results();
            assert(pair.drop_last() =~= seq![imp]);
            assert(pair.last() == res);
            assert(seq![imp].drop_last() =~= Seq::<Envelope>::empty());
            assert(seq![imp].last() == imp);
            assert(!is_result(imp));
            assert(is_result(res));
            assert(results_of(Seq::<Envelope>::empty()) =~= Seq::<Envelope>::empty());
            assert(results_of(seq![imp]) =~= Seq::<Envelope>::empty());
            assert(results_of(pair) =~= Seq::<Envelope>::empty().push(res));
            assert(Seq::<Envelope>::empty().push(res) =~= seq![res]);
            lemma_counts_concat(0, 0, results_of(rec0), seq![res]);
            assert(seq![res].drop_last() =~= Seq::<Envelope>::empty());
            assert(seq![res].last() == res);
            assert(reads_as_hit(res) == hit);
            let h0 = hits_after(0, results_of(rec0));
            let m0 = misses_after(0, results_of(rec0));
            assert(hits_after(h0, Seq::<Envelope>::empty()) == h0);
            assert(misses_after(m0, Seq::<Envelope>::empty()) == m0);
            assert(hits_after(h0, seq![res].drop_last()) == h0);
            assert(misses_after(m0, seq![res].drop_last()) == m0);
            assert(hits_after(h0, seq![res]) == if hit {
                bumped(h0)
            } else {
                h0
            });
            assert(misses_after(m0, seq![res]) == if hit {
                m0
            } else {
                bumped(m0)
            });
            assert(rec0 == old(self)@.recording);
            lemma_other_kinds_are_not_updates();
            assert(!is_update(imp) && !is_update(res));
            assert forall|i: int| 0 <= i < pair.len() implies !is_update(#[trigger] pair[i]) by {
                if i == 0 {
                    assert(pair[i] == imp);
                } else {
                    assert(pair[i] == res);
                }
            }
            assert forall|base: Seq<TargetSnapshot>| replayed_targets(base, rec0 + pair)
                == replayed_targets(base, rec0) by {
                lemma_replayed_concat(base, rec0, pair);
                lemma_no_updates(replayed_targets(base, rec0), pair);
            }
        }
        self.runtimes = rs;
        proof {
            assert(engine_wf(old(self)@));
            assert(self@.session_start == old(self)@.session_start);
            assert(self@.spawns == old(self)@.spawns);
        }
        ImpactOutcome {
            event: ScoreEvent {
                time: t,
                target_id,
                impact_id: impact_id.to_string(),
                hit,
                distance_mm: distance,
                x_mm,
                y_mm,
                hits_remaining,
            },
            action,
        }
    }

    /// Sets the radius of the target with id `target_id` (what a `Shrink`
    /// action computes); nothing else changes.
    pub fn set_radius(&mut self, target_id: &str, radius_mm: Double)
        requires
            old(self).wf(),
        ensures
            final(self).wf(),
            ({
                let rs = old(self)@.runtimes;
                let k = runtime_index(rs, target_id@);
                final(self)@ == (EngineView {
                    runtimes: if k < rs.len() {
                        rs.update(
                            k,
                            RuntimeEntry {
                                id: rs[k].id,
                                runtime: TargetRuntime { radius_mm, ..rs[k].runtime },
                            },
                        )
                    } else {
                        rs
                    },
                    ..old(self)@
                })
            }),
    {
        proof {
            assert(runtimes_cover(old(self)@.runtimes, old(self)@.scenario.targets@));
            lemma_runtime_index(old(self)@.runtimes, target_id@);
        }
        let k = find_runtime(&self.runtimes, target_id);
        if k < self.runtimes.len() {
            let ghost rs0 = self.runtimes@;
            let rt = self.runtimes[k].runtime;
            let id = self.runtimes[k].id.clone();
            self.runtimes.set(k, RuntimeEntry { id, runtime: TargetRuntime { radius_mm, ..rt } });
            proof {
                assert forall|m: int| 0 <= m < rs0.len() implies (#[trigger] rs0[m]).id
                    == self.runtimes@[m].id by {}
                lemma_same_ids_cover(rs0, self.runtimes@, self.scenario.targets@);
            }
        }
    }

    /// Sets the clock offset of the target with id `target_id` (what a `Skip`
    /// action computes); nothing else changes.
    pub fn set_time_offset(&mut self, target_id: &str, time_offset: Double)
        requires
            old(self).wf(),
        ensures
            final(self).wf(),
            ({
                let rs = old(self)@.runtimes;
                let k = runtime_index(rs, target_id@);
                final(self)@ == (EngineView {
                    runtimes: if k < rs.len() {
                        rs.update(
                            k,
                            RuntimeEntry {
                                id: rs[k].id,
                                runtime: TargetRuntime { time_offset, ..rs[k].runtime },
                            },
                        )
                    } else {
                        rs
                    },
                    ..old(self)@
                })
            }),
    {
        proof {
            assert(runtimes_cover(old(self)@.runtimes, old(self)@.scenario.targets@));
            lemma_runtime_index(old(self)@.runtimes, target_id@);
        }
        let k = find_runtime(&self.runtimes, target_id);
        if k < self.runtimes.len() {
            let ghost rs0 = self.runtimes@;
            let rt = self.runtimes[k].runtime;
            let id = self.runtimes[k].id.clone();
            self.runtimes.set(k, RuntimeEntry { id, runtime: TargetRuntime { time_offset, ..rt } });
            proof {
                assert forall|m: int| 0 <= m < rs0.len() implies (#[trigger] rs0[m]).id
                    == self.runtimes@[m].id by {}
                lemma_same_ids_cover(rs0, self.runtimes@, self.scenario.targets@);
            }
        }
    }

    /// Switches to playing back a recorded session: its first
    /// `session_start` (or a stand-in) gives the session id, scenario file and
    /// arena (each with its stand-in), each spawned target is hidden at
    /// (`center_x`, `center_y`, half that arena's width and height), the
    /// scoreboard is cleared, and the recording becomes the session start,
    /// the spawns and the playback: the `target_update` and `result`
    /// envelopes, stably sorted by time. It is finished at once when there is
    /// nothing to play.
    pub fn start_replay(&mut self, envelopes: &Vec<Envelope>, center_x: Double, center_y: Double)
        requires
            old(self).wf(),
        ensures
            final(self).wf(),
            match first_start(envelopes@) {
                Some(e) => final(self)@.session_start == e,
                None => is_stand_in_start(final(self)@.session_start),
            },
            final(self)@.spawns == spawns_in(envelopes@),
            final(self)@.replay.source@ == sort_by_time(playable_in(envelopes@)),
            final(self)@.replay.cursor == 0,
            ({
                let start = final(self)@.session_start;
                let playback = final(self)@.replay.source@;
                &&& final(self)@ == (EngineView {
                    scenario: Scenario {
                        arena: Arena {
                            width_mm: dimension_or(
                                start.data.arena_width_mm,
                                Double { bits: 0x4099_0000_0000_0000 },
                            ),
                            height_mm: dimension_or(
                                start.data.arena_height_mm,
                                Double { bits: 0x408F_4000_0000_0000 },
                            ),
                        },
                        ..old(self)@.scenario
                    },
                    scenario_file: text_or(start.data.scenario, "replay"@),
                    session_id: text_or(start.data.session_id, "replay"@),
                    flags: SessionFlags {
                        mode: Mode::Replay,
                        running: true,
                        finished: playback.len() == 0,
                        hits: 0,
                        misses: 0,
                    },
                    time: zero(),
                    targets: final(self)@.targets,
                    session_start: start,
                    spawns: final(self)@.spawns,
                    recording: seq![start] + final(self)@.spawns + playback,
                    replay: final(self)@.replay,
                    ..old(self)@
                })
                &&& exists|snaps: Seq<TargetSnapshot>|
                    snapshots_of_spawns(final(self)@.spawns, center_x, center_y, snaps)
                        && final(self)@.targets == upsert_all(Seq::empty(), snaps)
            }),
    {
        proof {
            assert(runtimes_cover(old(self)@.runtimes, old(self)@.scenario.targets@));
            lemma_first_start_is_start(envelopes@);
            lemma_spawns_are_spawns(envelopes@);
        }
        let parts = replay_parts(envelopes);
        let header = replay_header(&parts.session_start);
        let targets = targets_from_spawns(&parts.spawns, center_x, center_y);
        let mut recording: Vec<Envelope> = Vec::new();
        recording.push(clone_envelope(&parts.session_start));
        let mut spawns = clone_envelopes(&parts.spawns);
        recording.append(&mut spawns);
        let mut playing = clone_envelopes(&parts.playback);
        recording.append(&mut playing);
        let nothing_to_play = parts.playback.len() == 0;
        self.scenario.arena = Arena { width_mm: header.arena_width_mm, height_mm: header.arena_height_mm };
        self.scenario_file = header.scenario_file;
        self.session_id = header.session_id;
        self.flags.start_replay(nothing_to_play);
        self.time = Double::zero();
        self.targets = targets;
        self.session_start_envelope = parts.session_start;
        self.target_spawn_envelopes = parts.spawns;
        self.recording = recording;
        self.replay = Replay::new(parts.playback, Vec::new());
        proof {
            assert(self@.recording =~= seq![self@.session_start] + self@.spawns + self@.replay.source@);
        }
    }

    /// Advances playback to `elapsed_seconds` (made at least zero): every
    /// recorded envelope from the cursor on whose time is not after it is
    /// played in order (updates move the targets, results count as hits or
    /// misses); the session is finished once everything is played. Returns
    /// the score events of the results played. Outside a running replay
    /// nothing changes.
    pub fn replay_update(&mut self, elapsed_seconds: Double) -> (events: Vec<ScoreEvent>)
        requires
            old(self).wf(),
        ensures
            final(self).wf(),
            !replay_active(old(self)@.flags) ==> final(self)@ == old(self)@ && events@.len() == 0,
            replay_active(old(self)@.flags) ==> {
                let t = clamped_time(elapsed_seconds);
                let source = old(self)@.replay.source@;
                let c0 = old(self)@.replay.cursor as int;
                let c1 = due_end(source, c0, t);
                let played = source.subrange(c0, c1);
                &&& final(self)@.replay.source@ == source
                &&& final(self)@.replay.cursor == c1
                &&& (final(self)@.flags.finished <==> c1 == source.len())
                &&& events@.len() == results_of(played).len()
                &&& forall|i: int|
                    0 <= i < events@.len() ==> result_event_matches(
                        results_of(played)[i],
                        #[trigger] events@[i],
                    )
                &&& final(self)@ == (EngineView {
                    time: t,
                    targets: replayed_targets(old(self)@.targets, played),
                    flags: SessionFlags {
                        hits: hits_after(old(self)@.flags.hits, results_of(played)),
                        misses: misses_after(old(self)@.flags.misses, results_of(played)),
                        finished: old(self)@.flags.finished || c1 >= source.len(),
                        ..old(self)@.flags
                    },
                    replay: final(self)@.replay,
                    ..old(self)@
                })
            },
    {
        if !self.flags.replay_active() {
            return Vec::new();
        }
        proof {
            assert(runtimes_cover(old(self)@.runtimes, old(self)@.scenario.targets@));
        }
        let t = clamp_time(elapsed_seconds);
        let mut r = Replay::new(Vec::new(), Vec::new());
        std::mem::swap(&mut r, &mut self.replay);
        let mut ts: Vec<TargetSnapshot> = Vec::new();
        std::mem::swap(&mut ts, &mut self.targets);
        r.targets = ts;
        r.hits = self.flags.hits;
        r.misses = self.flags.misses;
        let ghost c0 = r.cursor as int;
        let ghost ts0 = r.targets@;
        let events = r.update(t);
        proof {
            lemma_replay_keeps_distinct(ts0, r.source@.subrange(c0, r.cursor as int));
        }
        let mut back: Vec<TargetSnapshot> = Vec::new();
        std::mem::swap(&mut back, &mut r.targets);
        self.targets = back;
        self.flags.hits = r.hits;
        self.flags.misses = r.misses;
        if r.finished() {
            self.flags.finished = true;
        }
        self.time = t;
        self.replay = r;
        events
    }

    /// An engine for a parsed scenario once it validates, with no scenario
    /// file named and the id of the `session_number`-th engine session; the
    /// validation error otherwise.
    pub fn new(scenario: Scenario, session_number: u64, center_x: Double, center_y: Double) -> (r:
        Result<Engine, EngineError>)
        ensures
            match r {
                Ok(e) => {
                    &&& scenario_error(scenario) is None
                    &&& e.wf()
                    &&& e@.scenario == scenario
                    &&& e@.scenario_file.len() == 0
                    &&& e@.session_id == engine_session_id(session_number as nat)
                    &&& e@.flags == (SessionFlags {
                        mode: Mode::Live,
                        running: false,
                        finished: false,
                        hits: 0,
                        misses: 0,
                    })
                    &&& e@.time == zero()
                    &&& e@.targets == initial_targets(scenario.targets@, center_x, center_y)
                    &&& e@.runtimes == initial_runtimes(scenario.targets@)
                    &&& e@.recording.len() == 0
                },
                Err(err) => scenario_error(scenario) == Some(err.0@),
            },
    {
        match scenario.validate() {
            Ok(()) => {
                let id = generated_session_id(session_number);
                Ok(Engine::from_scenario(scenario, String::new(), id, center_x, center_y))
            },
            Err(err) => Err(err),
        }
    }
}

} // verus!
