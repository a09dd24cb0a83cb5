//! Session state that the engine keeps besides the scenario: target
//! snapshots, scored events, the live/replay mode, and the playback of a
//! recorded session.
use vstd::prelude::*;

use crate::double::{is_nan, spec_le, spec_lt, total_key, zero, Double};
use crate::protocol::{
    is_result_of, same_text, session_start, Envelope, TYPE_RESULT, TYPE_SESSION_START, TYPE_TARGET_SPAWN,
    TYPE_TARGET_UPDATE,
};

verus! {

/// Where a target is and how to draw it, for rendering.
#[derive(Debug, Clone)]
pub struct TargetSnapshot {
    pub id: String,
    pub x_mm: Double,
    pub y_mm: Double,
    pub radius_mm: Double,
    pub visible: bool,
    pub shape: String,
    pub fill: String,
    pub stroke: String,
}

/// One scored impact, with the fields of its `result` envelope.
#[derive(Debug, Clone)]
pub struct ScoreEvent {
    pub time: Double,
    pub target_id: String,
    pub impact_id: String,
    pub hit: bool,
    pub distance_mm: Double,
    pub x_mm: Double,
    pub y_mm: Double,
    /// `Some(n)` when the hit target has a durability budget; `None` for an
    /// indestructible target or a miss.
    pub hits_remaining: Option<u32>,
}

/// `t.max(0.0)`: zero for NaN and for values below zero, `t` otherwise.
pub open spec fn clamped_time(t: Double) -> Double {
    if is_nan(t.bits) || spec_lt(t, zero()) {
        zero()
    } else {
        t
    }
}

pub fn clamp_time(t: Double) -> (r: Double)
    ensures
        r == clamped_time(t),
{
    if t.is_nan() || t.lt(Double::zero()) {
        Double::zero()
    } else {
        t
    }
}

/// The counter after one more event, wrapping at `u32::MAX` as a release
/// build's `+= 1` does.
pub open spec fn bumped(n: u32) -> u32 {
    if n == u32::MAX {
        0
    } else {
        (n + 1) as u32
    }
}

pub fn bump(n: u32) -> (r: u32)
    ensures
        r == bumped(n),
{
    if n == u32::MAX {
        0
    } else {
        n + 1
    }
}

/// Positive infinity, the distance of an impact that met no target.
pub open spec fn infinity() -> Double {
    Double { bits: 0x7FF0_0000_0000_0000 }
}

/// `opt.unwrap_or(default)` on text.
pub open spec fn text_or(opt: Option<String>, default: Seq<char>) -> Seq<char> {
    match opt {
        Some(s) => s@,
        None => default,
    }
}

/// The score event a recorded `result` envelope stands for; missing fields
/// read as no target, no impact, a miss, an infinite distance, the origin
/// and no hit budget. `hits_remaining` keeps the low 32 bits.
pub open spec fn result_event_matches(env: Envelope, ev: ScoreEvent) -> bool {
    &&& ev.time == env.time
    &&& ev.target_id@ == text_or(env.data.target_id, Seq::empty())
    &&& ev.impact_id@ == text_or(env.data.impact_id, Seq::empty())
    &&& ev.hit == match env.data.hit {
        Some(h) => h,
        None => false,
    }
    &&& ev.distance_mm == match env.data.distance_mm {
        Some(d) => d,
        None => infinity(),
    }
    &&& ev.x_mm == match env.data.x_mm {
        Some(d) => d,
        None => zero(),
    }
    &&& ev.y_mm == match env.data.y_mm {
        Some(d) => d,
        None => zero(),
    }
    &&& ev.hits_remaining == match env.data.hits_remaining {
        Some(n) => Some((n % 0x1_0000_0000) as u32),
        None => None,
    }
}

/// Replaying a recorded `result` gives back the event that was scored: the
/// time, target, impact, hit flag, distance, impact coordinates (each from
/// its own field) and hits left that the `result` envelope was made from.
pub proof fn lemma_recorded_result_replays_as_scored(
    env: Envelope,
    ev: ScoreEvent,
    time: Double,
    target_id: Seq<char>,
    impact_id: Seq<char>,
    hit: bool,
    distance_mm: Double,
    x_mm: Double,
    y_mm: Double,
    hits_remaining: Option<u32>,
)
    requires
        is_result_of(env, time, target_id, impact_id, hit, distance_mm, x_mm, y_mm, hits_remaining),
        result_event_matches(env, ev),
    ensures
        ev.time == time,
        ev.target_id@ == target_id,
        ev.impact_id@ == impact_id,
        ev.hit == hit,
        ev.distance_mm == distance_mm,
        ev.x_mm == x_mm,
        ev.y_mm == y_mm,
        ev.hits_remaining == hits_remaining,
{
    if let Some(n) = hits_remaining {
        assert((n as u64) % 0x1_0000_0000 == n as u64);
    }
}

/// A recorded `target_update` applied to one snapshot: the snapshot with the
/// update's id takes each field the update carries and keeps the rest.
pub open spec fn updated_snapshot(t: TargetSnapshot, env: Envelope) -> TargetSnapshot {
    if t.id@ == text_or(env.data.target_id, Seq::empty()) {
        TargetSnapshot {
            x_mm: match env.data.x_mm {
                Some(v) => v,
                None => t.x_mm,
            },
            y_mm: match env.data.y_mm {
                Some(v) => v,
                None => t.y_mm,
            },
            visible: match env.data.visible {
                Some(v) => v,
                None => t.visible,
            },
            radius_mm: match env.data.radius_mm {
                Some(v) => v,
                None => t.radius_mm,
            },
            ..t
        }
    } else {
        t
    }
}

fn copy_text(s: &String) -> (r: String)
    ensures
        r == *s,
{
    s.clone()
}

fn text_or_empty(opt: &Option<String>) -> (r: String)
    ensures
        r@ == text_or(*opt, Seq::empty()),
{
    match opt {
        Some(s) => s.clone(),
        None => String::new(),
    }
}

/// The score event of a recorded `result` envelope.
pub fn result_event(env: &Envelope) -> (ev: ScoreEvent)
    ensures
        result_event_matches(*env, ev),
{
    let hit = match env.data.hit {
        Some(h) => h,
        None => false,
    };
    let distance_mm = match env.data.distance_mm {
        Some(d) => d,
        None => Double::infinity(),
    };
    let x_mm = match env.data.x_mm {
        Some(d) => d,
        None => Double::zero(),
    };
    let y_mm = match env.data.y_mm {
        Some(d) => d,
        None => Double::zero(),
    };
    let hits_remaining = match env.data.hits_remaining {
        Some(n) => Some((n % 0x1_0000_0000) as u32),
        None => None,
    };
    ScoreEvent {
        time: env.time,
        target_id: text_or_empty(&env.data.target_id),
        impact_id: text_or_empty(&env.data.impact_id),
        hit,
        distance_mm,
        x_mm,
        y_mm,
        hits_remaining,
    }
}

/// A copy of a snapshot.
pub fn clone_snapshot(t: &TargetSnapshot) -> (r: TargetSnapshot)
    ensures
        r == *t,
{
    TargetSnapshot {
        id: copy_text(&t.id),
        x_mm: t.x_mm,
        y_mm: t.y_mm,
        radius_mm: t.radius_mm,
        visible: t.visible,
        shape: copy_text(&t.shape),
        fill: copy_text(&t.fill),
        stroke: copy_text(&t.stroke),
    }
}

/// A copy of each snapshot, in order.
pub fn clone_snapshots(v: &Vec<TargetSnapshot>) -> (r: Vec<TargetSnapshot>)
    ensures
        r@ == v@,
{
    let mut r: Vec<TargetSnapshot> = Vec::new();
    let mut i: usize = 0;
    while i < v.len()
        invariant
            i <= v@.len(),
            r@ == v@.subrange(0, i as int),
        decreases v@.len() - i,
    {
        r.push(clone_snapshot(&v[i]));
        assert(r@ =~= v@.subrange(0, i + 1));
        i = i + 1;
    }
    assert(v@.subrange(0, i as int) =~= v@);
    r
}

/// Applies a recorded `target_update` to the snapshot that has its id.
pub fn apply_update(targets: &mut Vec<TargetSnapshot>, env: &Envelope)
    ensures
        final(targets)@ == old(targets)@.map_values(|t: TargetSnapshot| updated_snapshot(t, *env)),
{
    let id = text_or_empty(&env.data.target_id);
    let n = targets.len();
    let mut i: usize = 0;
    while i < n
        invariant
            n == targets@.len(),
            n == old(targets)@.len(),
            i <= n,
            id@ == text_or(env.data.target_id, Seq::empty()),
            forall|k: int|
                0 <= k < i ==> #[trigger] targets@[k] == updated_snapshot(old(targets)@[k], *env),
            forall|k: int| i <= k < n ==> #[trigger] targets@[k] == old(targets)@[k],
        decreases n - i,
    {
        if same_text(targets[i].id.as_str(), id.as_str()) {
            let t = clone_snapshot(&targets[i]);
            let x_mm = match env.data.x_mm {
                Some(v) => v,
                None => t.x_mm,
            };
            let y_mm = match env.data.y_mm {
                Some(v) => v,
                None => t.y_mm,
            };
            let visible = match env.data.visible {
                Some(v) => v,
                None => t.visible,
            };
            let radius_mm = match env.data.radius_mm {
                Some(v) => v,
                None => t.radius_mm,
            };
            let u = TargetSnapshot { x_mm, y_mm, visible, radius_mm, ..t };
            targets.set(i, u);
        }
        i = i + 1;
    }
    assert(targets@ =~= old(targets)@.map_values(|t: TargetSnapshot| updated_snapshot(t, *env)));
}

/// Insertion of `e` into `s` just after the last element, scanning from the
/// end, whose time key is not above `e`'s: the step of a stable sort.
pub open spec fn insert_by_time(s: Seq<Envelope>, e: Envelope) -> Seq<Envelope>
    decreases s.len(),
{
    if s.len() == 0 {
        seq![e]
    } else if total_key(s.last().time.bits) <= total_key(e.time.bits) {
        s.push(e)
    } else {
        insert_by_time(s.drop_last(), e).push(s.last())
    }
}

/// `s` stably sorted by `f64::total_cmp` on the envelopes' times: envelopes
/// with equal times keep their order.
pub open spec fn sort_by_time(s: Seq<Envelope>) -> Seq<Envelope>
    decreases s.len(),
{
    if s.len() == 0 {
        Seq::empty()
    } else {
        insert_by_time(sort_by_time(s.drop_last()), s.last())
    }
}

/// Envelopes in non-decreasing `total_cmp` order of time.
pub open spec fn time_sorted(s: Seq<Envelope>) -> bool {
    forall|i: int, j: int|
        0 <= i < j < s.len() ==> total_key(#[trigger] s[i].time.bits) <= total_key(
            #[trigger] s[j].time.bits,
        )
}

proof fn lemma_insert_at(s: Seq<Envelope>, e: Envelope, j: int)
    requires
        0 <= j <= s.len(),
        forall|k: int| j <= k < s.len() ==> total_key(#[trigger] s[k].time.bits) > total_key(e.time.bits),
        j > 0 ==> total_key(s[j - 1].time.bits) <= total_key(e.time.bits),
    ensures
        insert_by_time(s, e) == s.insert(j, e),
    decreases s.len(),
{
    if s.len() == 0 {
        assert(s.insert(j, e) =~= seq![e]);
    } else if j == s.len() {
        assert(s.insert(j, e) =~= s.push(e));
    } else {
        let t = s.drop_last();
        assert forall|k: int| j <= k < t.len() implies total_key(#[trigger] t[k].time.bits) > total_key(e.time.bits) by {
            assert(t[k] == s[k]);
        }
        lemma_insert_at(t, e, j);
        assert(s.insert(j, e) =~= t.insert(j, e).push(s.last()));
    }
}

proof fn lemma_insert_keeps_sorted(s: Seq<Envelope>, e: Envelope)
    requires
        time_sorted(s),
    ensures
        time_sorted(insert_by_time(s, e)),
        insert_by_time(s, e).len() == s.len() + 1,
    decreases s.len(),
{
    if s.len() > 0 && total_key(s.last().time.bits) > total_key(e.time.bits) {
        let t = s.drop_last();
        assert(time_sorted(t)) by {
            assert forall|i: int, j: int| 0 <= i < j < t.len() implies total_key(
                #[trigger] t[i].time.bits,
            ) <= total_key(#[trigger] t[j].time.bits) by {
                assert(t[i] == s[i] && t[j] == s[j]);
            }
        }
        lemma_insert_keeps_sorted(t, e);
        let r = insert_by_time(t, e);
        assert forall|k: int| 0 <= k < r.len() implies total_key(#[trigger] r[k].time.bits)
            <= total_key(s.last().time.bits) by {
            lemma_insert_members(t, e, k);
        }
    }
}

proof fn lemma_insert_members(s: Seq<Envelope>, e: Envelope, k: int)
    requires
        0 <= k < insert_by_time(s, e).len(),
    ensures
        insert_by_time(s, e).len() == s.len() + 1,
        insert_by_time(s, e)[k] == e || exists|m: int| 0 <= m < s.len() && insert_by_time(s, e)[k] == s[m],
    decreases s.len(),
{
    if s.len() > 0 && total_key(s.last().time.bits) > total_key(e.time.bits) {
        lemma_insert_members(s.drop_last(), e, 0);
        if k < s.len() {
            lemma_insert_members(s.drop_last(), e, k);
            let r = insert_by_time(s.drop_last(), e);
            if r[k] != e {
                let m = choose|m: int| 0 <= m < s.drop_last().len() && r[k] == s.drop_last()[m];
                assert(s[m] == s.drop_last()[m]);
            }
        } else {
            assert(insert_by_time(s, e)[k] == s[s.len() - 1]);
        }
    } else if s.len() > 0 {
        if k < s.len() {
            assert(insert_by_time(s, e)[k] == s[k]);
        }
    }
}

/// Stable sort of a playback by time, as `slice::sort_by` with `total_cmp`.
pub fn sort_playback(v: Vec<Envelope>) -> (r: Vec<Envelope>)
    ensures
        r@ == sort_by_time(v@),
        time_sorted(r@),
        r@.to_multiset() == v@.to_multiset(),
{
    let mut r: Vec<Envelope> = Vec::new();
    let mut v = v;
    let ghost all = v@;
    let n = v.len();
    // Walk the input front to back by reversing it once.
    let mut rev: Vec<Envelope> = Vec::new();
    while v.len() > 0
        invariant
            all.len() == n,
            v@.len() + rev@.len() == n,
            v@ == all.subrange(0, v@.len() as int),
            forall|k: int| 0 <= k < rev@.len() ==> #[trigger] rev@[k] == all[n - 1 - k],
        decreases v@.len(),
    {
        let e = v.pop().unwrap();
        rev.push(e);
        assert(v@ =~= all.subrange(0, v@.len() as int));
    }
    let mut i: usize = 0;
    proof {
        assert(all.subrange(0, 0) =~= Seq::<Envelope>::empty());
    }
    while rev.len() > 0
        invariant
            all.len() == n,
            i + rev@.len() == n,
            forall|k: int| 0 <= k < rev@.len() ==> #[trigger] rev@[k] == all[n - 1 - k],
            r@ == sort_by_time(all.subrange(0, i as int)),
            time_sorted(r@),
        decreases rev@.len(),
    {
        let e = rev.pop().unwrap();
        assert(e == all[i as int]);
        let key = e.time.total_key();
        let mut j = r.len();
        while j > 0 && r[j - 1].time.total_key() > key
            invariant
                j <= r@.len(),
                key == total_key(e.time.bits),
                forall|k: int| j <= k < r@.len() ==> total_key(#[trigger] r@[k].time.bits) > key,
            decreases j,
        {
            j = j - 1;
        }
        proof {
            lemma_insert_at(r@, e, j as int);
            lemma_insert_keeps_sorted(r@, e);
            assert(all.subrange(0, i + 1).drop_last() =~= all.subrange(0, i as int));
        }
        r.insert(j, e);
        i = i + 1;
    }
    assert(all.subrange(0, n as int) =~= all);
    proof {
        lemma_sort_by_time_permutes(all);
    }
    r
}


/// A `target_update` envelope.
pub open spec fn is_update(e: Envelope) -> bool {
    e.kind@ == "target_update"@
}

/// A `result` envelope.
pub open spec fn is_result(e: Envelope) -> bool {
    e.kind@ == "result"@
}

/// The snapshots after playing `envs` in order: each `target_update`
/// applied to the snapshot with its id.
pub open spec fn replayed_targets(ts: Seq<TargetSnapshot>, envs: Seq<Envelope>) -> Seq<
    TargetSnapshot,
>
    decreases envs.len(),
{
    if envs.len() == 0 {
        ts
    } else {
        let prev = replayed_targets(ts, envs.drop_last());
        if is_update(envs.last()) {
            prev.map_values(|t: TargetSnapshot| updated_snapshot(t, envs.last()))
        } else {
            prev
        }
    }
}

/// The `result` envelopes among `envs`, in order.
pub open spec fn results_of(envs: Seq<Envelope>) -> Seq<Envelope>
    decreases envs.len(),
{
    if envs.len() == 0 {
        Seq::empty()
    } else if is_result(envs.last()) {
        results_of(envs.drop_last()).push(envs.last())
    } else {
        results_of(envs.drop_last())
    }
}

/// A result envelope reads as a hit: its `hit` field is `true`.
pub open spec fn reads_as_hit(e: Envelope) -> bool {
    e.data.hit == Some(true)
}

/// The hit counter after counting the hits among `results`.
pub open spec fn hits_after(h: u32, results: Seq<Envelope>) -> u32
    decreases results.len(),
{
    if results.len() == 0 {
        h
    } else if reads_as_hit(results.last()) {
        bumped(hits_after(h, results.drop_last()))
    } else {
        hits_after(h, results.drop_last())
    }
}

/// The miss counter after counting the misses among `results`.
pub open spec fn misses_after(m: u32, results: Seq<Envelope>) -> u32
    decreases results.len(),
{
    if results.len() == 0 {
        m
    } else if !reads_as_hit(results.last()) {
        bumped(misses_after(m, results.drop_last()))
    } else {
        misses_after(m, results.drop_last())
    }
}

/// The index just past the run of envelopes from `cursor` on whose time is
/// not after `t`.
pub open spec fn due_end(source: Seq<Envelope>, cursor: int, t: Double) -> int
    decreases source.len() - cursor,
{
    if cursor >= source.len() || !spec_le(source[cursor].time, t) {
        cursor
    } else {
        due_end(source, cursor + 1, t)
    }
}

proof fn lemma_subrange_step<T>(s: Seq<T>, start: int, i: int)
    requires
        0 <= start <= i < s.len(),
    ensures
        s.subrange(start, i + 1).drop_last() == s.subrange(start, i),
        s.subrange(start, i + 1).last() == s[i],
{
    assert(s.subrange(start, i + 1).drop_last() =~= s.subrange(start, i));
}

/// Playing everything due from `cursor` ends no earlier than `cursor` and no
/// later than the end; it reaches the end when every remaining envelope is
/// due by `t`.
pub proof fn lemma_due_end(source: Seq<Envelope>, cursor: int, t: Double)
    requires
        0 <= cursor <= source.len(),
    ensures
        cursor <= due_end(source, cursor, t) <= source.len(),
        (forall|k: int| cursor <= k < source.len() ==> spec_le(#[trigger] source[k].time, t))
            ==> due_end(source, cursor, t) == source.len(),
        due_end(source, cursor, t) < source.len() ==> !spec_le(
            source[due_end(source, cursor, t)].time,
            t,
        ),
    decreases source.len() - cursor,
{
    if cursor < source.len() && spec_le(source[cursor].time, t) {
        lemma_due_end(source, cursor + 1, t);
    }
}

/// The engine's state for rendering: session, mode, clock, arena,
/// scoreboard and targets ordered by id.
#[derive(Debug, Clone)]
pub struct Snapshot {
    pub session_id: String,
    pub scenario_name: String,
    pub scenario_file: String,
    pub mode: &'static str,
    pub running: bool,
    pub finished: bool,
    pub time: Double,
    pub arena_width_mm: Double,
    pub arena_height_mm: Double,
    pub hits: u32,
    pub misses: u32,
    pub targets: Vec<TargetSnapshot>,
}

/// Playback of a recorded session: the envelopes still to play, how far it
/// has got, the target snapshots and the scoreboard.
pub struct Replay {
    pub source: Vec<Envelope>,
    pub cursor: usize,
    pub targets: Vec<TargetSnapshot>,
    pub hits: u32,
    pub misses: u32,
}

impl Replay {
    /// A playback of `source` (time-sorted) that has played nothing yet.
    pub fn new(source: Vec<Envelope>, targets: Vec<TargetSnapshot>) -> (r: Replay)
        ensures
            r.source@ == source@,
            r.targets@ == targets@,
            r.cursor == 0,
            r.hits == 0,
            r.misses == 0,
    {
        Replay { source, cursor: 0, targets, hits: 0, misses: 0 }
    }

    /// Every recorded envelope has been played.
    pub fn finished(&self) -> (b: bool)
        ensures
            b == (self.cursor >= self.source@.len()),
    {
        self.cursor >= self.source.len()
    }

    fn next_due(&self, t: Double) -> (b: bool)
        ensures
            b == (self.cursor < self.source@.len() && spec_le(
                self.source@[self.cursor as int].time,
                t,
            )),
    {
        self.cursor < self.source.len() && self.source[self.cursor].time.le(t)
    }

    /// Plays every envelope from the cursor on whose time is not after `t`,
    /// in order: updates move snapshots, results count as hits or misses.
    /// Returns the score events of the results played.
    pub fn update(&mut self, t: Double) -> (events: Vec<ScoreEvent>)
        requires
            old(self).cursor <= old(self).source@.len(),
        ensures
            final(self).source@ == old(self).source@,
            final(self).cursor == due_end(old(self).source@, old(self).cursor as int, t),
            old(self).cursor <= final(self).cursor <= final(self).source@.len(),
            ({
                let played = old(self).source@.subrange(
                    old(self).cursor as int,
                    final(self).cursor as int,
                );
                &&& final(self).targets@ == replayed_targets(old(self).targets@, played)
                &&& final(self).hits == hits_after(old(self).hits, results_of(played))
                &&& final(self).misses == misses_after(old(self).misses, results_of(played))
                &&& events@.len() == results_of(played).len()
                &&& forall|i: int|
                    0 <= i < events@.len() ==> result_event_matches(
                        results_of(played)[i],
                        #[trigger] events@[i],
                    )
            }),
    {
        let c0 = self.cursor;
        let ghost start = c0 as int;
        let ghost src = self.source@;
        let ghost ts0 = self.targets@;
        let ghost h0 = self.hits;
        let ghost m0 = self.misses;
        let mut events: Vec<ScoreEvent> = Vec::new();
        let n = self.source.len();
        proof {
            lemma_due_end(src, start, t);
        }
        proof {
            reveal_strlit("target_update");
            reveal_strlit("result");
        }
        while self.next_due(t)
            invariant
                self.source@ == src,
                n == src.len(),
                0 <= start <= self.cursor <= src.len(),
                due_end(src, start, t) == due_end(src, self.cursor as int, t),
                ({
                    let played = src.subrange(start, self.cursor as int);
                    &&& self.targets@ == replayed_targets(ts0, played)
                    &&& self.hits == hits_after(h0, results_of(played))
                    &&& self.misses == misses_after(m0, results_of(played))
                    &&& events@.len() == results_of(played).len()
                    &&& forall|i: int|
                        0 <= i < events@.len() ==> result_event_matches(
                            results_of(played)[i],
                            #[trigger] events@[i],
                        )
                }),
            decreases src.len() - self.cursor,
        {
            let c = self.cursor;
            let ghost ci = c as int;
            let ghost before = src.subrange(start, ci);
            let ghost after = src.subrange(start, ci + 1);
            proof {
                lemma_subrange_step(src, start, ci);
            }
            let env = &self.source[c];
            proof {
                reveal_strlit("target_update");
                reveal_strlit("result");
                assert(*env == src[ci]);
                if is_result(*env) {
                    assert(results_of(after) == results_of(before).push(*env));
                    assert(results_of(after).drop_last() =~= results_of(before));
                } else {
                    assert(results_of(after) == results_of(before));
                }
            }
            if same_text(env.kind.as_str(), "target_update") {
                apply_update(&mut self.targets, env);
                assert(env.kind@ == "target_update"@);
                assert("target_update"@.len() == 13);
                assert("result"@.len() == 6);
                assert(!is_result(*env));
            } else if same_text(env.kind.as_str(), "result") {
                let hit = match env.data.hit {
                    Some(h) => h,
                    None => false,
                };
                if hit {
                    self.hits = bump(self.hits);
                } else {
                    self.misses = bump(self.misses);
                }
                let ev = result_event(env);
                events.push(ev);
                proof {
                    assert forall|i: int| 0 <= i < events@.len() implies result_event_matches(
                        results_of(after)[i],
                        #[trigger] events@[i],
                    ) by {
                        if i < events@.len() - 1 {
                            assert(results_of(after)[i] == results_of(before)[i]);
                        }
                    }
                }
            }
            self.cursor = c + 1;
        }
        events
    }
}


fn clone_opt_text(o: &Option<String>) -> (r: Option<String>)
    ensures
        r == *o,
{
    match o {
        Some(s) => Some(s.clone()),
        None => None,
    }
}

/// A copy of an envelope.
pub fn clone_envelope(e: &Envelope) -> (r: Envelope)
    ensures
        r == *e,
{
    let d = &e.data;
    Envelope {
        kind: e.kind.clone(),
        time: e.time,
        source: e.source.clone(),
        data: crate::protocol::EnvelopeData {
            session_id: clone_opt_text(&d.session_id),
            scenario: clone_opt_text(&d.scenario),
            target_id: clone_opt_text(&d.target_id),
            impact_id: clone_opt_text(&d.impact_id),
            shape: clone_opt_text(&d.shape),
            fill: clone_opt_text(&d.fill),
            stroke: clone_opt_text(&d.stroke),
            arena_width_mm: d.arena_width_mm,
            arena_height_mm: d.arena_height_mm,
            x_mm: d.x_mm,
            y_mm: d.y_mm,
            radius_mm: d.radius_mm,
            distance_mm: d.distance_mm,
            visible: d.visible,
            hit: d.hit,
            hits_remaining: d.hits_remaining,
            raw: clone_opt_text(&d.raw),
        },
    }
}

/// A `session_start` envelope.
pub open spec fn is_start(e: Envelope) -> bool {
    e.kind@ == "session_start"@
}

/// A `target_spawn` envelope.
pub open spec fn is_spawn(e: Envelope) -> bool {
    e.kind@ == "target_spawn"@
}

/// The first `session_start` envelope of `s`, if any.
pub open spec fn first_start(s: Seq<Envelope>) -> Option<Envelope>
    decreases s.len(),
{
    if s.len() == 0 {
        None
    } else if is_start(s[0]) {
        Some(s[0])
    } else {
        first_start(s.drop_first())
    }
}

/// The `target_spawn` envelopes of `s`, in order.
pub open spec fn spawns_in(s: Seq<Envelope>) -> Seq<Envelope>
    decreases s.len(),
{
    if s.len() == 0 {
        Seq::empty()
    } else if is_spawn(s.last()) {
        spawns_in(s.drop_last()).push(s.last())
    } else {
        spawns_in(s.drop_last())
    }
}

/// The `target_update` and `result` envelopes of `s`, in order.
pub open spec fn playable_in(s: Seq<Envelope>) -> Seq<Envelope>
    decreases s.len(),
{
    if s.len() == 0 {
        Seq::empty()
    } else if is_update(s.last()) || is_result(s.last()) {
        playable_in(s.drop_last()).push(s.last())
    } else {
        playable_in(s.drop_last())
    }
}

/// The first `session_start` of a recording is a `session_start`.
pub proof fn lemma_first_start_is_start(s: Seq<Envelope>)
    ensures
        first_start(s) matches Some(e) ==> is_start(e),
    decreases s.len(),
{
    if s.len() > 0 && !is_start(s[0]) {
        lemma_first_start_is_start(s.drop_first());
    }
}

/// The spawns of a recording are `target_spawn` envelopes.
pub proof fn lemma_spawns_are_spawns(s: Seq<Envelope>)
    ensures
        forall|i: int| 0 <= i < spawns_in(s).len() ==> is_spawn(#[trigger] spawns_in(s)[i]),
    decreases s.len(),
{
    if s.len() > 0 {
        lemma_spawns_are_spawns(s.drop_last());
        let prev = spawns_in(s.drop_last());
        assert forall|i: int| 0 <= i < spawns_in(s).len() implies is_spawn(
            #[trigger] spawns_in(s)[i],
        ) by {
            if i < prev.len() {
                assert(spawns_in(s)[i] == prev[i]);
            }
        }
    }
}

/// The `session_start` stand-in for a recording that has none: time zero,
/// session and scenario "replay", a 1600 x 1000 mm arena.
pub open spec fn is_stand_in_start(e: Envelope) -> bool {
    &&& e.kind@ == "session_start"@
    &&& e.time == zero()
    &&& e.source@ == "core"@
    &&& e.data.session_id matches Some(s) && s@ == "replay"@
    &&& e.data.scenario matches Some(s) && s@ == "replay"@
    &&& e.data.arena_width_mm == Some(Double { bits: 0x4099_0000_0000_0000 })
    &&& e.data.arena_height_mm == Some(Double { bits: 0x408F_4000_0000_0000 })
}

/// A recording taken apart for playback.
pub struct ReplayParts {
    /// Its first `session_start`, or a stand-in when it has none.
    pub session_start: Envelope,
    /// Its `target_spawn` envelopes, in order.
    pub spawns: Vec<Envelope>,
    /// Its `target_update` and `result` envelopes, stably sorted by time.
    pub playback: Vec<Envelope>,
    /// The same envelopes in the order they were recorded.
    pub recorded: Vec<Envelope>,
}

/// A copy of each envelope, in order.
pub fn clone_envelopes(v: &Vec<Envelope>) -> (r: Vec<Envelope>)
    ensures
        r@ == v@,
{
    let mut r: Vec<Envelope> = Vec::new();
    let mut i: usize = 0;
    while i < v.len()
        invariant
            i <= v@.len(),
            r@ == v@.subrange(0, i as int),
        decreases v@.len() - i,
    {
        r.push(clone_envelope(&v[i]));
        assert(r@ =~= v@.subrange(0, i + 1));
        i = i + 1;
    }
    assert(v@.subrange(0, i as int) =~= v@);
    r
}

/// Takes a parsed recording apart: the session start, the spawns, and the
/// time-sorted envelopes to play back.
pub fn replay_parts(envelopes: &Vec<Envelope>) -> (r: ReplayParts)
    ensures
        match first_start(envelopes@) {
            Some(e) => r.session_start == e,
            None => is_stand_in_start(r.session_start),
        },
        r.spawns@ == spawns_in(envelopes@),
        r.playback@ == sort_by_time(playable_in(envelopes@)),
        r.recorded@ == playable_in(envelopes@),
{
    let n = envelopes.len();
    let mut start: Option<Envelope> = None;
    let mut spawns: Vec<Envelope> = Vec::new();
    let mut playable: Vec<Envelope> = Vec::new();
    let mut i: usize = 0;
    proof {
        assert(envelopes@.subrange(0, 0) =~= Seq::<Envelope>::empty());
        assert(envelopes@.subrange(0, n as int) =~= envelopes@);
    }
    while i < n
        invariant
            n == envelopes@.len(),
            i <= n,
            spawns@ == spawns_in(envelopes@.subrange(0, i as int)),
            playable@ == playable_in(envelopes@.subrange(0, i as int)),
            match start {
                Some(e) => first_start(envelopes@) == Some(e),
                None => first_start(envelopes@) == first_start(
                    envelopes@.subrange(i as int, n as int),
                ),
            },
        decreases n - i,
    {
        let e = &envelopes[i];
        proof {
            reveal_strlit("session_start");
            reveal_strlit("target_spawn");
            reveal_strlit("target_update");
            reveal_strlit("result");
            assert("session_start"@.len() == 13 && "session_start"@[0] == 's');
            assert("target_spawn"@.len() == 12);
            assert("target_update"@.len() == 13 && "target_update"@[0] == 't');
            assert("result"@.len() == 6);
            let pre = envelopes@.subrange(0, i as int);
            let post = envelopes@.subrange(0, i + 1);
            assert(post.drop_last() =~= pre);
            assert(post.last() == envelopes@[i as int]);
            let tail = envelopes@.subrange(i as int, n as int);
            assert(tail.drop_first() =~= envelopes@.subrange(i + 1, n as int));
            assert(tail[0] == envelopes@[i as int]);
        }
        if same_text(e.kind.as_str(), "session_start") {
            if start.is_none() {
                start = Some(clone_envelope(e));
            }
        } else if same_text(e.kind.as_str(), "target_spawn") {
            spawns.push(clone_envelope(e));
        } else if same_text(e.kind.as_str(), "target_update") || same_text(
            e.kind.as_str(),
            "result",
        ) {
            playable.push(clone_envelope(e));
        }
        i = i + 1;
    }
    proof {
        assert(envelopes@.subrange(0, n as int) =~= envelopes@);
        assert(envelopes@.subrange(n as int, n as int) =~= Seq::<Envelope>::empty());
    }
    let session_start = match start {
        Some(e) => e,
        None => session_start(
            Double::zero(),
            "replay",
            Double { bits: 0x4099_0000_0000_0000 },
            Double { bits: 0x408F_4000_0000_0000 },
            "replay",
        ),
    };
    let recorded = clone_envelopes(&playable);
    ReplayParts { session_start, spawns, playback: sort_playback(playable), recorded }
}


/// What a replay takes from its session start: the session id, the arena
/// and the scenario file, each with its stand-in when the envelope lacks it.
pub struct ReplayHeader {
    pub session_id: String,
    pub arena_width_mm: Double,
    pub arena_height_mm: Double,
    pub scenario_file: String,
}

pub fn replay_header(start: &Envelope) -> (h: ReplayHeader)
    ensures
        h.session_id@ == text_or(start.data.session_id, "replay"@),
        h.scenario_file@ == text_or(start.data.scenario, "replay"@),
        h.arena_width_mm == match start.data.arena_width_mm {
            Some(w) => w,
            None => Double { bits: 0x4099_0000_0000_0000 },
        },
        h.arena_height_mm == match start.data.arena_height_mm {
            Some(w) => w,
            None => Double { bits: 0x408F_4000_0000_0000 },
        },
{
    ReplayHeader {
        session_id: text_or_default(&start.data.session_id, "replay"),
        arena_width_mm: match start.data.arena_width_mm {
            Some(w) => w,
            None => Double { bits: 0x4099_0000_0000_0000 },
        },
        arena_height_mm: match start.data.arena_height_mm {
            Some(w) => w,
            None => Double { bits: 0x408F_4000_0000_0000 },
        },
        scenario_file: text_or_default(&start.data.scenario, "replay"),
    }
}

fn text_or_default(opt: &Option<String>, default: &str) -> (r: String)
    ensures
        r@ == text_or(*opt, default@),
{
    match opt {
        Some(s) => s.clone(),
        None => default.to_string(),
    }
}

/// The hidden snapshot a recorded `target_spawn` stands for, placed at the
/// given arena centre; missing fields read as no id, a zero radius and the
/// default shape and colors.
pub open spec fn spawn_snapshot_matches(
    env: Envelope,
    center_x: Double,
    center_y: Double,
    t: TargetSnapshot,
) -> bool {
    &&& t.id@ == text_or(env.data.target_id, Seq::empty())
    &&& t.x_mm == center_x
    &&& t.y_mm == center_y
    &&& t.radius_mm == match env.data.radius_mm {
        Some(r) => r,
        None => zero(),
    }
    &&& !t.visible
    &&& t.shape@ == text_or(env.data.shape, "circle"@)
    &&& t.fill@ == text_or(env.data.fill, "#e3b341"@)
    &&& t.stroke@ == text_or(env.data.stroke, "#c99a2e"@)
}

pub fn spawn_snapshot(env: &Envelope, center_x: Double, center_y: Double) -> (t: TargetSnapshot)
    ensures
        spawn_snapshot_matches(*env, center_x, center_y, t),
{
    TargetSnapshot {
        id: text_or_empty(&env.data.target_id),
        x_mm: center_x,
        y_mm: center_y,
        radius_mm: match env.data.radius_mm {
            Some(r) => r,
            None => Double::zero(),
        },
        visible: false,
        shape: text_or_default(&env.data.shape, "circle"),
        fill: text_or_default(&env.data.fill, "#e3b341"),
        stroke: text_or_default(&env.data.stroke, "#c99a2e"),
    }
}

/// The position of the first snapshot with id `id`, or `ts.len()`.
pub open spec fn index_of_id(ts: Seq<TargetSnapshot>, id: Seq<char>) -> int
    decreases ts.len(),
{
    if ts.len() == 0 {
        0
    } else if ts[0].id@ == id {
        0
    } else {
        1 + index_of_id(ts.drop_first(), id)
    }
}

/// `t` put in place of the snapshot with its id, or appended when none has it.
pub open spec fn upsert(ts: Seq<TargetSnapshot>, t: TargetSnapshot) -> Seq<TargetSnapshot> {
    let i = index_of_id(ts, t.id@);
    if i < ts.len() {
        ts.update(i, t)
    } else {
        ts.push(t)
    }
}

proof fn lemma_index_of_id(ts: Seq<TargetSnapshot>, id: Seq<char>, i: int)
    requires
        0 <= i <= ts.len(),
        forall|k: int| 0 <= k < i ==> ts[k].id@ != id,
        i == ts.len() || ts[i].id@ == id,
    ensures
        index_of_id(ts, id) == i,
    decreases ts.len(),
{
    if ts.len() > 0 && i > 0 {
        let t = ts.drop_first();
        assert forall|k: int| 0 <= k < i - 1 implies t[k].id@ != id by {
            assert(t[k] == ts[k + 1]);
        }
        lemma_index_of_id(t, id, i - 1);
    }
}

/// Puts `t` in place of the snapshot with its id, or appends it.
pub fn upsert_snapshot(ts: &mut Vec<TargetSnapshot>, t: TargetSnapshot)
    ensures
        final(ts)@ == upsert(old(ts)@, t),
{
    let n = ts.len();
    let mut i: usize = 0;
    while i < n
        invariant
            n == ts@.len(),
            ts@ == old(ts)@,
            i <= n,
            forall|k: int| 0 <= k < i ==> ts@[k].id@ != t.id@,
        decreases n - i,
    {
        if same_text(ts[i].id.as_str(), t.id.as_str()) {
            proof {
                lemma_index_of_id(ts@, t.id@, i as int);
            }
            ts.set(i, t);
            return;
        }
        i = i + 1;
    }
    proof {
        lemma_index_of_id(ts@, t.id@, n as int);
    }
    ts.push(t);
}


/// `snaps` put in one by one with `upsert`.
pub open spec fn upsert_all(ts: Seq<TargetSnapshot>, snaps: Seq<TargetSnapshot>) -> Seq<
    TargetSnapshot,
>
    decreases snaps.len(),
{
    if snaps.len() == 0 {
        ts
    } else {
        upsert(upsert_all(ts, snaps.drop_last()), snaps.last())
    }
}

/// `snaps` are the snapshots that `spawns` stand for, one for one.
pub open spec fn snapshots_of_spawns(
    spawns: Seq<Envelope>,
    center_x: Double,
    center_y: Double,
    snaps: Seq<TargetSnapshot>,
) -> bool {
    snaps.len() == spawns.len() && forall|i: int|
        0 <= i < spawns.len() ==> spawn_snapshot_matches(
            spawns[i],
            center_x,
            center_y,
            #[trigger] snaps[i],
        )
}

/// One snapshot per distinct spawned id, placed at the arena centre; a later
/// spawn of an id replaces the earlier one in its place.
pub fn targets_from_spawns(spawns: &Vec<Envelope>, center_x: Double, center_y: Double) -> (r: Vec<
    TargetSnapshot,
>)
    ensures
        exists|snaps: Seq<TargetSnapshot>|
            snapshots_of_spawns(spawns@, center_x, center_y, snaps) && r@ == upsert_all(
                Seq::empty(),
                snaps,
            ),
        distinct_ids(r@),
{
    let mut r: Vec<TargetSnapshot> = Vec::new();
    let ghost mut snaps: Seq<TargetSnapshot> = Seq::empty();
    let mut i: usize = 0;
    while i < spawns.len()
        invariant
            i <= spawns@.len(),
            snapshots_of_spawns(spawns@.subrange(0, i as int), center_x, center_y, snaps),
            r@ == upsert_all(Seq::empty(), snaps),
        decreases spawns@.len() - i,
    {
        let t = spawn_snapshot(&spawns[i], center_x, center_y);
        let ghost old_snaps = snaps;
        proof {
            snaps = snaps.push(t);
            assert(snaps.drop_last() =~= old_snaps);
            assert forall|k: int| 0 <= k < i + 1 implies spawn_snapshot_matches(
                spawns@.subrange(0, i + 1)[k],
                center_x,
                center_y,
                #[trigger] snaps[k],
            ) by {
                if k < i {
                    assert(spawns@.subrange(0, i + 1)[k] == spawns@.subrange(0, i as int)[k]);
                }
            }
        }
        upsert_snapshot(&mut r, t);
        i = i + 1;
    }
    assert(spawns@.subrange(0, i as int) =~= spawns@);
    proof {
        lemma_spawned_targets_distinct(snaps);
    }
    r
}


proof fn lemma_le_trans(a: Double, b: Double, c: Double)
    requires
        spec_le(a, b),
        spec_le(b, c),
    ensures
        spec_le(a, c),
{
}

proof fn lemma_due_end_steps(source: Seq<Envelope>, cursor: int, t1: Double, t2: Double)
    requires
        0 <= cursor <= source.len(),
        spec_le(t1, t2),
    ensures
        due_end(source, due_end(source, cursor, t1), t2) == due_end(source, cursor, t2),
    decreases source.len() - cursor,
{
    if cursor < source.len() && spec_le(source[cursor].time, t1) {
        lemma_le_trans(source[cursor].time, t1, t2);
        lemma_due_end_steps(source, cursor + 1, t1, t2);
    }
}

/// Playing two runs of envelopes one after the other is playing them as one run.
pub proof fn lemma_replayed_concat(ts: Seq<TargetSnapshot>, a: Seq<Envelope>, b: Seq<Envelope>)
    ensures
        replayed_targets(ts, a + b) == replayed_targets(replayed_targets(ts, a), b),
    decreases b.len(),
{
    if b.len() == 0 {
        assert(a + b =~= a);
    } else {
        assert((a + b).drop_last() =~= a + b.drop_last());
        assert((a + b).last() == b.last());
        lemma_replayed_concat(ts, a, b.drop_last());
    }
}

/// The results of two runs of envelopes are the results of each, in turn.
pub proof fn lemma_results_concat(a: Seq<Envelope>, b: Seq<Envelope>)
    ensures
        results_of(a + b) == results_of(a) + results_of(b),
    decreases b.len(),
{
    if b.len() == 0 {
        assert(a + b =~= a);
        assert(results_of(a) + results_of(b) =~= results_of(a));
    } else {
        assert((a + b).drop_last() =~= a + b.drop_last());
        assert((a + b).last() == b.last());
        lemma_results_concat(a, b.drop_last());
        if is_result(b.last()) {
            assert(results_of(a) + results_of(b.drop_last()).push(b.last()) =~= (results_of(a)
                + results_of(b.drop_last())).push(b.last()));
        }
    }
}

/// Counting the hits and misses of two runs of results one after the other is
/// counting them as one run.
pub proof fn lemma_counts_concat(h: u32, m: u32, a: Seq<Envelope>, b: Seq<Envelope>)
    ensures
        hits_after(h, a + b) == hits_after(hits_after(h, a), b),
        misses_after(m, a + b) == misses_after(misses_after(m, a), b),
    decreases b.len(),
{
    if b.len() == 0 {
        assert(a + b =~= a);
    } else {
        assert((a + b).drop_last() =~= a + b.drop_last());
        assert((a + b).last() == b.last());
        lemma_counts_concat(h, m, a, b.drop_last());
    }
}

/// Playback follows the absolute session time: playing a recording up to
/// `t1` and then on up to a later `t2` ends at the same cursor, with the
/// same target snapshots and scoreboard, as playing up to `t2` at once, and
/// the score events of the two steps, one after the other, are those of the
/// single step.
pub proof fn lemma_replay_in_steps(
    source: Seq<Envelope>,
    cursor: int,
    ts: Seq<TargetSnapshot>,
    hits: u32,
    misses: u32,
    t1: Double,
    t2: Double,
)
    requires
        0 <= cursor <= source.len(),
        spec_le(t1, t2),
    ensures
        ({
            let c1 = due_end(source, cursor, t1);
            let c2 = due_end(source, c1, t2);
            let first = source.subrange(cursor, c1);
            let second = source.subrange(c1, c2);
            let once = source.subrange(cursor, c2);
            &&& c2 == due_end(source, cursor, t2)
            &&& replayed_targets(replayed_targets(ts, first), second) == replayed_targets(ts, once)
            &&& hits_after(hits_after(hits, results_of(first)), results_of(second)) == hits_after(
                hits,
                results_of(once),
            )
            &&& misses_after(misses_after(misses, results_of(first)), results_of(second))
                == misses_after(misses, results_of(once))
            &&& results_of(first) + results_of(second) == results_of(once)
        }),
{
    let c1 = due_end(source, cursor, t1);
    lemma_due_end(source, cursor, t1);
    lemma_due_end(source, c1, t2);
    lemma_due_end_steps(source, cursor, t1, t2);
    let c2 = due_end(source, c1, t2);
    let first = source.subrange(cursor, c1);
    let second = source.subrange(c1, c2);
    let once = source.subrange(cursor, c2);
    assert(once =~= first + second);
    lemma_replayed_concat(ts, first, second);
    lemma_results_concat(first, second);
    lemma_counts_concat(hits, misses, results_of(first), results_of(second));
}


/// No two snapshots share an id: the engine keeps one snapshot per target.
pub open spec fn distinct_ids(ts: Seq<TargetSnapshot>) -> bool {
    forall|i: int, j: int|
        0 <= i < j < ts.len() ==> (#[trigger] ts[i]).id@ != (#[trigger] ts[j]).id@
}

proof fn lemma_index_of_id_found(ts: Seq<TargetSnapshot>, id: Seq<char>)
    ensures
        0 <= index_of_id(ts, id) <= ts.len(),
        index_of_id(ts, id) < ts.len() ==> ts[index_of_id(ts, id)].id@ == id,
        index_of_id(ts, id) == ts.len() ==> forall|k: int| 0 <= k < ts.len() ==> (#[trigger] ts[k]).id@ != id,
    decreases ts.len(),
{
    if ts.len() > 0 && ts[0].id@ != id {
        let t = ts.drop_first();
        lemma_index_of_id_found(t, id);
        assert forall|k: int| 0 <= k < t.len() implies t[k] == ts[k + 1] by {}
        if index_of_id(ts, id) == ts.len() {
            assert forall|k: int| 0 <= k < ts.len() implies (#[trigger] ts[k]).id@ != id by {
                if k > 0 {
                    assert(ts[k] == t[k - 1]);
                }
            }
        }
    }
}

/// Putting a snapshot in keeps one snapshot per id: the new one stands in
/// place of the one with its id, or is added when none had it; every other
/// snapshot stays where it was.
pub proof fn lemma_upsert_keeps_ids_distinct(ts: Seq<TargetSnapshot>, t: TargetSnapshot)
    requires
        distinct_ids(ts),
    ensures
        distinct_ids(upsert(ts, t)),
        upsert(ts, t).contains(t),
        forall|k: int| 0 <= k < ts.len() && ts[k].id@ != t.id@ ==> upsert(ts, t)[k] == ts[k],
        upsert(ts, t).len() == if (exists|k: int| 0 <= k < ts.len() && (#[trigger] ts[k]).id@ == t.id@) {
            ts.len()
        } else {
            ts.len() + 1
        },
{
    lemma_index_of_id_found(ts, t.id@);
    let i = index_of_id(ts, t.id@);
    let u = upsert(ts, t);
    if i < ts.len() {
        assert(u[i] == t);
        assert forall|a: int, b: int| 0 <= a < b < u.len() implies (#[trigger] u[a]).id@ != (
        #[trigger] u[b]).id@ by {
            if a != i && b != i {
                assert(u[a] == ts[a] && u[b] == ts[b]);
            } else if a == i {
                assert(u[b] == ts[b]);
                assert(ts[i].id@ != ts[b].id@);
            } else {
                assert(u[a] == ts[a]);
                assert(ts[a].id@ != ts[i].id@);
            }
        }
    } else {
        assert(u[ts.len() as int] == t);
        assert forall|a: int, b: int| 0 <= a < b < u.len() implies (#[trigger] u[a]).id@ != (
        #[trigger] u[b]).id@ by {
            if b < ts.len() {
                assert(u[a] == ts[a] && u[b] == ts[b]);
            } else {
                assert(u[a] == ts[a]);
            }
        }
    }
}

proof fn lemma_upsert_all_distinct(ts: Seq<TargetSnapshot>, snaps: Seq<TargetSnapshot>)
    requires
        distinct_ids(ts),
    ensures
        distinct_ids(upsert_all(ts, snaps)),
    decreases snaps.len(),
{
    if snaps.len() > 0 {
        lemma_upsert_all_distinct(ts, snaps.drop_last());
        lemma_upsert_keeps_ids_distinct(upsert_all(ts, snaps.drop_last()), snaps.last());
    }
}

/// The targets built from a recording's spawns have one snapshot per id.
pub proof fn lemma_spawned_targets_distinct(snaps: Seq<TargetSnapshot>)
    ensures
        distinct_ids(upsert_all(Seq::empty(), snaps)),
{
    lemma_upsert_all_distinct(Seq::empty(), snaps);
}

/// Playing envelopes back never adds, drops or reorders targets, nor
/// changes what they are or how they are drawn: only positions,
/// visibility and radii move.
pub proof fn lemma_replay_keeps_targets(ts: Seq<TargetSnapshot>, envs: Seq<Envelope>)
    ensures
        replayed_targets(ts, envs).len() == ts.len(),
        forall|i: int|
            0 <= i < ts.len() ==> {
                let r = #[trigger] replayed_targets(ts, envs)[i];
                &&& r.id == ts[i].id
                &&& r.shape == ts[i].shape
                &&& r.fill == ts[i].fill
                &&& r.stroke == ts[i].stroke
            },
    decreases envs.len(),
{
    if envs.len() > 0 {
        lemma_replay_keeps_targets(ts, envs.drop_last());
    }
}


proof fn lemma_insert_by_time_multiset(s: Seq<Envelope>, e: Envelope)
    ensures
        insert_by_time(s, e).to_multiset() == s.to_multiset().insert(e),
    decreases s.len(),
{
    broadcast use vstd::seq_lib::group_to_multiset_ensures;

    if s.len() == 0 {
        assert(seq![e] =~= s.push(e));
    } else if total_key(s.last().time.bits) <= total_key(e.time.bits) {
    } else {
        let d = s.drop_last();
        lemma_insert_by_time_multiset(d, e);
        assert(d.push(s.last()) =~= s);
        assert(insert_by_time(s, e).to_multiset() =~= s.to_multiset().insert(e));
    }
}

/// Sorting a playback by time reorders it and nothing more: the result is
/// time-sorted and holds exactly the envelopes it was given.
pub proof fn lemma_sort_by_time_permutes(s: Seq<Envelope>)
    ensures
        sort_by_time(s).to_multiset() == s.to_multiset(),
        time_sorted(sort_by_time(s)),
    decreases s.len(),
{
    broadcast use vstd::seq_lib::group_to_multiset_ensures;

    if s.len() == 0 {
        assert(time_sorted(Seq::<Envelope>::empty()));
    } else {
        let d = s.drop_last();
        lemma_sort_by_time_permutes(d);
        lemma_insert_by_time_multiset(sort_by_time(d), s.last());
        lemma_insert_keeps_sorted(sort_by_time(d), s.last());
        assert(d.push(s.last()) =~= s);
    }
}


/// The number of `result` envelopes in `s` that read as hits.
pub open spec fn count_hits(s: Seq<Envelope>) -> nat
    decreases s.len(),
{
    if s.len() == 0 {
        0
    } else {
        count_hits(s.drop_last()) + if is_result(s.last()) && reads_as_hit(s.last()) {
            1nat
        } else {
            0nat
        }
    }
}

/// The number of `result` envelopes in `s` that read as misses.
pub open spec fn count_misses(s: Seq<Envelope>) -> nat
    decreases s.len(),
{
    if s.len() == 0 {
        0
    } else {
        count_misses(s.drop_last()) + if is_result(s.last()) && !reads_as_hit(s.last()) {
            1nat
        } else {
            0nat
        }
    }
}

/// A counter bumped `k` times.
pub open spec fn bump_n(h: u32, k: nat) -> u32
    decreases k,
{
    if k == 0 {
        h
    } else {
        bumped(bump_n(h, (k - 1) as nat))
    }
}

proof fn lemma_counters_count(h: u32, m: u32, s: Seq<Envelope>)
    ensures
        hits_after(h, results_of(s)) == bump_n(h, count_hits(s)),
        misses_after(m, results_of(s)) == bump_n(m, count_misses(s)),
    decreases s.len(),
{
    if s.len() > 0 {
        lemma_counters_count(h, m, s.drop_last());
        if is_result(s.last()) {
            let r = results_of(s.drop_last());
            assert(results_of(s) == r.push(s.last()));
            assert(r.push(s.last()).drop_last() =~= r);
        }
    }
}

proof fn lemma_counts_of_playable(s: Seq<Envelope>)
    ensures
        count_hits(playable_in(s)) == count_hits(s),
        count_misses(playable_in(s)) == count_misses(s),
    decreases s.len(),
{
    if s.len() > 0 {
        lemma_counts_of_playable(s.drop_last());
        let p = playable_in(s.drop_last());
        if is_update(s.last()) || is_result(s.last()) {
            assert(p.push(s.last()).drop_last() =~= p);
        }
    }
}

proof fn lemma_counts_of_insert(s: Seq<Envelope>, e: Envelope)
    ensures
        count_hits(insert_by_time(s, e)) == count_hits(s.push(e)),
        count_misses(insert_by_time(s, e)) == count_misses(s.push(e)),
    decreases s.len(),
{
    assert(s.push(e).drop_last() =~= s);
    if s.len() == 0 {
        assert(insert_by_time(s, e) =~= s.push(e));
    } else if total_key(s.last().time.bits) > total_key(e.time.bits) {
        let d = s.drop_last();
        lemma_counts_of_insert(d, e);
        let q = insert_by_time(d, e);
        assert(insert_by_time(s, e) == q.push(s.last()));
        assert(q.push(s.last()).drop_last() =~= q);
        assert(q.push(s.last()).last() == s.last());
        assert(d.push(e).drop_last() =~= d);
        assert(d.push(e).last() == e);
        assert(count_hits(s) == count_hits(d) + if is_result(s.last()) && reads_as_hit(s.last()) {
            1nat
        } else {
            0nat
        });
        assert(count_misses(s) == count_misses(d) + if is_result(s.last()) && !reads_as_hit(
            s.last(),
        ) {
            1nat
        } else {
            0nat
        });
    }
}

proof fn lemma_counts_of_sort(s: Seq<Envelope>)
    ensures
        count_hits(sort_by_time(s)) == count_hits(s),
        count_misses(sort_by_time(s)) == count_misses(s),
    decreases s.len(),
{
    if s.len() > 0 {
        let d = s.drop_last();
        lemma_counts_of_sort(d);
        lemma_counts_of_insert(sort_by_time(d), s.last());
        let q = sort_by_time(d);
        assert(q.push(s.last()).drop_last() =~= q);
        assert(d.push(s.last()) =~= s);
    }
}

/// Playing back a recording counts the hits and misses its results record:
/// the playback (its updates and results, sorted by time) holds every
/// result of the recording.
pub proof fn lemma_playback_counts_recorded_results(rec: Seq<Envelope>, h: u32, m: u32)
    ensures
        hits_after(h, results_of(sort_by_time(playable_in(rec)))) == hits_after(h, results_of(rec)),
        misses_after(m, results_of(sort_by_time(playable_in(rec)))) == misses_after(
            m,
            results_of(rec),
        ),
{
    let p = sort_by_time(playable_in(rec));
    lemma_counters_count(h, m, p);
    lemma_counters_count(h, m, rec);
    lemma_counts_of_sort(playable_in(rec));
    lemma_counts_of_playable(rec);
}


proof fn lemma_sorted_sort_is_identity(s: Seq<Envelope>)
    requires
        time_sorted(s),
    ensures
        sort_by_time(s) == s,
    decreases s.len(),
{
    if s.len() > 0 {
        let d = s.drop_last();
        assert(time_sorted(d)) by {
            assert forall|i: int, j: int| 0 <= i < j < d.len() implies total_key(
                #[trigger] d[i].time.bits,
            ) <= total_key(#[trigger] d[j].time.bits) by {
                assert(d[i] == s[i] && d[j] == s[j]);
            }
        }
        lemma_sorted_sort_is_identity(d);
        if d.len() > 0 {
            assert(d.last() == s[s.len() - 2]);
            assert(total_key(s[s.len() - 2].time.bits) <= total_key(s[s.len() - 1].time.bits));
        }
        assert(d.push(s.last()) =~= s);
    }
}

proof fn lemma_replay_ignores_the_rest(ts: Seq<TargetSnapshot>, rec: Seq<Envelope>)
    ensures
        replayed_targets(ts, playable_in(rec)) == replayed_targets(ts, rec),
    decreases rec.len(),
{
    if rec.len() > 0 {
        lemma_replay_ignores_the_rest(ts, rec.drop_last());
        let p = playable_in(rec.drop_last());
        if is_update(rec.last()) || is_result(rec.last()) {
            assert(p.push(rec.last()).drop_last() =~= p);
            assert(p.push(rec.last()).last() == rec.last());
        }
    }
}

/// Replay moves the targets exactly as the recorded session did: applying
/// a recording's playback (its updates and results, sorted by time) to any
/// snapshots gives what applying the whole recording in its order gives,
/// whenever its updates and results were recorded in time order (as a live
/// session records them while its clock does not run backwards).
pub proof fn lemma_replay_reproduces_motion(ts: Seq<TargetSnapshot>, rec: Seq<Envelope>)
    requires
        time_sorted(playable_in(rec)),
    ensures
        replayed_targets(ts, sort_by_time(playable_in(rec))) == replayed_targets(ts, rec),
{
    lemma_sorted_sort_is_identity(playable_in(rec));
    lemma_replay_ignores_the_rest(ts, rec);
}

} // verus!
