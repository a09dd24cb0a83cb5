//! Decisions of a live session: the mode and scoreboard, which target an
//! impact is scored against, what a hit does to a destructible target, and
//! the order in which targets are reported.
use vstd::prelude::*;

use crate::double::{is_nan, order_key, spec_lt, Double};
use crate::names::chars_of;
use crate::scenario::Durability;
use crate::session::{bump, bumped, distinct_ids, TargetSnapshot};

verus! {

/// Whether the engine drives a live simulation or plays back a recording.
#[derive(Debug, Clone, Copy, PartialEq, Eq, Structural)]
pub enum Mode {
    Live,
    Replay,
}

/// The engine's mode, run state and scoreboard.
#[derive(Debug, Clone, Copy)]
pub struct SessionFlags {
    pub mode: Mode,
    pub running: bool,
    pub finished: bool,
    pub hits: u32,
    pub misses: u32,
}

impl SessionFlags {
    /// A live session that has not started.
    pub fn new() -> (f: SessionFlags)
        ensures
            f.mode == Mode::Live,
            !f.running,
            !f.finished,
            f.hits == 0,
            f.misses == 0,
    {
        SessionFlags { mode: Mode::Live, running: false, finished: false, hits: 0, misses: 0 }
    }

    /// Starts (or restarts) a live session with an empty scoreboard.
    pub fn start(&mut self)
        ensures
            final(self).mode == Mode::Live,
            final(self).running,
            !final(self).finished,
            final(self).hits == 0,
            final(self).misses == 0,
    {
        self.mode = Mode::Live;
        self.running = true;
        self.finished = false;
        self.hits = 0;
        self.misses = 0;
    }

    /// Freezes the session: nothing is accepted until the next start.
    pub fn stop(&mut self)
        ensures
            *final(self) == (SessionFlags { running: false, ..*old(self) }),
    {
        self.running = false;
    }

    /// Switches to playing back a recording, finished at once when it has
    /// nothing to play.
    pub fn start_replay(&mut self, nothing_to_play: bool)
        ensures
            final(self).mode == Mode::Replay,
            final(self).running,
            final(self).finished == nothing_to_play,
            final(self).hits == 0,
            final(self).misses == 0,
    {
        self.mode = Mode::Replay;
        self.running = true;
        self.finished = nothing_to_play;
        self.hits = 0;
        self.misses = 0;
    }

    /// Live updates and impacts are taken: a running live session.
    pub fn live_active(&self) -> (b: bool)
        ensures
            b == (self.mode == Mode::Live && self.running),
    {
        self.mode == Mode::Live && self.running
    }

    /// Playback advances: a running replay.
    pub fn replay_active(&self) -> (b: bool)
        ensures
            b == (self.mode == Mode::Replay && self.running),
    {
        self.mode == Mode::Replay && self.running
    }

    /// Counts one scored impact as a hit or a miss.
    pub fn score(&mut self, hit: bool)
        ensures
            final(self).hits == if hit {
                bumped(old(self).hits)
            } else {
                old(self).hits
            },
            final(self).misses == if hit {
                old(self).misses
            } else {
                bumped(old(self).misses)
            },
            final(self).mode == old(self).mode,
            final(self).running == old(self).running,
            final(self).finished == old(self).finished,
    {
        if hit {
            self.hits = bump(self.hits);
        } else {
            self.misses = bump(self.misses);
        }
    }

    /// The mode's name in a snapshot: "live" or "replay".
    pub fn mode_name(&self) -> (s: &'static str)
        ensures
            self.mode == Mode::Live ==> s@ == "live"@,
            self.mode == Mode::Replay ==> s@ == "replay"@,
    {
        match self.mode {
            Mode::Live => "live",
            Mode::Replay => "replay",
        }
    }
}

/// A target as an impact sees it: whether it is shown, and how far its
/// centre is from the impact.
#[derive(Debug, Clone, Copy)]
pub struct Candidate {
    pub visible: bool,
    pub distance_mm: Double,
}

/// The target an impact is scored against: scanning in order, a shown
/// target replaces the current choice when there is none yet or when it is
/// strictly closer (`<` on binary64, so ties keep the earlier target).
pub open spec fn closest(c: Seq<Candidate>) -> Option<int>
    decreases c.len(),
{
    if c.len() == 0 {
        None
    } else {
        let prev = closest(c.drop_last());
        let i = c.len() - 1;
        if c[i].visible && (prev is None || spec_lt(c[i].distance_mm, c[prev->0].distance_mm)) {
            Some(i)
        } else {
            prev
        }
    }
}

proof fn lemma_closest_range(c: Seq<Candidate>)
    ensures
        closest(c) matches Some(k) ==> 0 <= k < c.len(),
    decreases c.len(),
{
    if c.len() > 0 {
        lemma_closest_range(c.drop_last());
    }
}

/// Picks the target an impact is scored against; `None` when none is shown.
pub fn closest_visible(c: &Vec<Candidate>) -> (r: Option<usize>)
    ensures
        match closest(c@) {
            Some(i) => r == Some(i as usize),
            None => r is None,
        },
{
    let mut best: Option<usize> = None;
    let mut i: usize = 0;
    while i < c.len()
        invariant
            i <= c@.len(),
            match closest(c@.subrange(0, i as int)) {
                Some(k) => best == Some(k as usize),
                None => best is None,
            },
            best matches Some(b) ==> b < i,
        decreases c@.len() - i,
    {
        let cand = c[i];
        proof {
            lemma_closest_range(c@.subrange(0, i as int));
            let pre = c@.subrange(0, i as int);
            let post = c@.subrange(0, i + 1);
            assert(post.drop_last() =~= pre);
            assert(post[i as int] == cand);
            if let Some(b) = best {
                assert(post[b as int] == pre[b as int]);
            }
        }
        let better = match best {
            None => true,
            Some(b) => cand.distance_mm.lt(c[b].distance_mm),
        };
        if cand.visible && better {
            best = Some(i);
        }
        i = i + 1;
    }
    assert(c@.subrange(0, i as int) =~= c@);
    best
}

/// The chosen target is shown, no shown target with a comparable distance
/// is strictly closer, and nothing is chosen only when no target is shown.
pub proof fn lemma_closest_is_nearest(c: Seq<Candidate>)
    ensures
        match closest(c) {
            Some(i) => 0 <= i < c.len() && c[i].visible && forall|j: int|
                0 <= j < c.len() && c[j].visible ==> !spec_lt(
                    #[trigger] c[j].distance_mm,
                    c[i].distance_mm,
                ) || is_nan(c[i].distance_mm.bits) || exists|k: int|
                    0 <= k < c.len() && c[k].visible && is_nan(#[trigger] c[k].distance_mm.bits),
            None => forall|j: int| 0 <= j < c.len() ==> !(#[trigger] c[j]).visible,
        },
    decreases c.len(),
{
    if c.len() > 0 {
        let d = c.drop_last();
        lemma_closest_is_nearest(d);
        let i = c.len() - 1;
        let prev = closest(d);
        assert forall|j: int| 0 <= j < d.len() implies d[j] == c[j] by {}
        match closest(c) {
            Some(r) => {
                assert forall|j: int|
                    0 <= j < c.len() && c[j].visible implies !spec_lt(
                    #[trigger] c[j].distance_mm,
                    c[r].distance_mm,
                ) || is_nan(c[r].distance_mm.bits) || exists|k: int|
                    0 <= k < c.len() && c[k].visible && is_nan(
                        #[trigger] c[k].distance_mm.bits,
                    ) by {
                    if j < i {
                        assert(d[j] == c[j]);
                        if prev is Some {
                            let p = prev->0;
                            assert(d[p] == c[p]);
                            if r == i && spec_lt(c[j].distance_mm, c[r].distance_mm) {
                                if !is_nan(c[p].distance_mm.bits) && !spec_lt(
                                    c[j].distance_mm,
                                    c[p].distance_mm,
                                ) {
                                    if !is_nan(c[j].distance_mm.bits) {
                                        assert(order_key(c[p].distance_mm.bits) <= order_key(
                                            c[j].distance_mm.bits,
                                        ));
                                    }
                                } else if is_nan(c[p].distance_mm.bits) {
                                    assert(!spec_lt(c[r].distance_mm, c[p].distance_mm));
                                } else {
                                    assert(!spec_lt(c[j].distance_mm, c[p].distance_mm)
                                        || is_nan(c[p].distance_mm.bits) || exists|k: int|
                                        0 <= k < d.len() && d[k].visible && is_nan(
                                            #[trigger] d[k].distance_mm.bits,
                                        ));
                                    let k = choose|k: int|
                                        0 <= k < d.len() && d[k].visible && is_nan(
                                            #[trigger] d[k].distance_mm.bits,
                                        );
                                    assert(c[k] == d[k]);
                                }
                            }
                        }
                    } else if r != i {
                        let p = prev->0;
                        assert(r == p);
                        assert(!(c[i].visible && spec_lt(c[i].distance_mm, c[p].distance_mm)));
                    }
                }
            },
            None => {},
        }
    }
}

/// The hits a fresh appearance of a target can take: its budget, if any.
pub fn fresh_hits(durability: &Option<Durability>) -> (r: Option<u32>)
    ensures
        match *durability {
            Some(d) => r == Some(d.hits_to_destroy),
            None => r is None,
        },
{
    match durability {
        Some(d) => Some(d.hits_to_destroy),
        None => None,
    }
}

/// What one landed hit leaves of a destructible target's current appearance.
#[derive(Debug, Clone, Copy)]
pub struct HitOutcome {
    /// Hits left after this one; 0 on the destroying hit.
    pub hits_remaining: u32,
    /// This hit destroyed the appearance: the target skips to whatever comes
    /// next in its sequence. Otherwise it shrinks.
    pub destroyed: bool,
}

/// The hits left before a hit: what is recorded, or the full budget.
pub open spec fn hits_before(remaining: Option<u32>, d: Durability) -> u32 {
    match remaining {
        Some(n) => n,
        None => d.hits_to_destroy,
    }
}

/// Applies a landed hit to a destructible target: with at most one hit left
/// it is destroyed (nothing left), otherwise one hit fewer is left.
pub fn register_hit(remaining: Option<u32>, durability: &Durability) -> (o: HitOutcome)
    ensures
        o.destroyed == (hits_before(remaining, *durability) <= 1),
        o.hits_remaining == if o.destroyed {
            0
        } else {
            (hits_before(remaining, *durability) - 1) as u32
        },
{
    let left = match remaining {
        Some(n) => n,
        None => durability.hits_to_destroy,
    };
    if left <= 1 {
        HitOutcome { hits_remaining: 0, destroyed: true }
    } else {
        HitOutcome { hits_remaining: left - 1, destroyed: false }
    }
}

/// A shown target has begun a new appearance: its `(cycle, step)` differs
/// from the last one seen while it was shown. Its hit budget and radius
/// then reset to the target's base values.
pub fn begins_appearance(last: (u64, usize), now: (u64, usize), visible: bool) -> (b: bool)
    ensures
        b == (visible && last != now),
{
    visible && (last.0 != now.0 || last.1 != now.1)
}

/// `a` orders before `b` as `str` comparison does (by code point,
/// lexicographically, a prefix first).
pub open spec fn text_lt(a: Seq<char>, b: Seq<char>) -> bool
    decreases a.len(),
{
    if a.len() == 0 {
        b.len() > 0
    } else if b.len() == 0 {
        false
    } else if a[0] != b[0] {
        a[0] < b[0]
    } else {
        text_lt(a.drop_first(), b.drop_first())
    }
}

pub(crate) fn text_less(a: &str, b: &str) -> (r: bool)
    ensures
        r == text_lt(a@, b@),
{
    let x = chars_of(a);
    let y = chars_of(b);
    let mut i: usize = 0;
    assert(x@.subrange(0, x@.len() as int) =~= x@);
    assert(y@.subrange(0, y@.len() as int) =~= y@);
    while i < x.len() && i < y.len()
        invariant
            i <= x@.len(),
            i <= y@.len(),
            forall|k: int| 0 <= k < i ==> x@[k] == y@[k],
            text_lt(a@, b@) == text_lt(x@.subrange(i as int, x@.len() as int), y@.subrange(i as int, y@.len() as int)),
            x@ == a@,
            y@ == b@,
        decreases x@.len() - i,
    {
        let ghost xs = x@.subrange(i as int, x@.len() as int);
        let ghost ys = y@.subrange(i as int, y@.len() as int);
        assert(xs[0] == x@[i as int] && ys[0] == y@[i as int]);
        if x[i] != y[i] {
            return x[i] < y[i];
        }
        assert(xs.drop_first() =~= x@.subrange(i + 1, x@.len() as int));
        assert(ys.drop_first() =~= y@.subrange(i + 1, y@.len() as int));
        i = i + 1;
    }
    i == x.len() && i < y.len()
}

/// Insertion of `t` just after the last snapshot, scanning from the end,
/// whose id does not order after `t`'s: the step of a stable sort by id.
pub open spec fn insert_by_id(s: Seq<TargetSnapshot>, t: TargetSnapshot) -> Seq<TargetSnapshot>
    decreases s.len(),
{
    if s.len() == 0 {
        seq![t]
    } else if !text_lt(t.id@, s.last().id@) {
        s.push(t)
    } else {
        insert_by_id(s.drop_last(), t).push(s.last())
    }
}

/// `s` stably sorted by id.
pub open spec fn sort_by_id(s: Seq<TargetSnapshot>) -> Seq<TargetSnapshot>
    decreases s.len(),
{
    if s.len() == 0 {
        Seq::empty()
    } else {
        insert_by_id(sort_by_id(s.drop_last()), s.last())
    }
}

proof fn lemma_insert_id_at(s: Seq<TargetSnapshot>, t: TargetSnapshot, j: int)
    requires
        0 <= j <= s.len(),
        forall|k: int| j <= k < s.len() ==> text_lt(t.id@, #[trigger] s[k].id@),
        j > 0 ==> !text_lt(t.id@, s[j - 1].id@),
    ensures
        insert_by_id(s, t) == s.insert(j, t),
    decreases s.len(),
{
    if s.len() == 0 {
        assert(s.insert(j, t) =~= seq![t]);
    } else if j == s.len() {
        assert(s.insert(j, t) =~= s.push(t));
    } else {
        let d = s.drop_last();
        assert forall|k: int| j <= k < d.len() implies text_lt(t.id@, #[trigger] d[k].id@) by {
            assert(d[k] == s[k]);
        }
        lemma_insert_id_at(d, t, j);
        assert(s.insert(j, t) =~= d.insert(j, t).push(s.last()));
    }
}

/// The targets ordered by id, as a snapshot reports them.
pub fn sort_targets(v: Vec<TargetSnapshot>) -> (r: Vec<TargetSnapshot>)
    ensures
        r@ == sort_by_id(v@),
        id_sorted(r@),
        r@.to_multiset() == v@.to_multiset(),
{
    let mut v = v;
    let ghost all = v@;
    let n = v.len();
    let mut rev: Vec<TargetSnapshot> = Vec::new();
    while v.len() > 0
        invariant
            all.len() == n,
            v@.len() + rev@.len() == n,
            v@ == all.subrange(0, v@.len() as int),
            forall|k: int| 0 <= k < rev@.len() ==> #[trigger] rev@[k] == all[n - 1 - k],
        decreases v@.len(),
    {
        let e = v.pop().unwrap();
        rev.push(e);
        assert(v@ =~= all.subrange(0, v@.len() as int));
    }
    let mut r: Vec<TargetSnapshot> = Vec::new();
    let mut i: usize = 0;
    assert(all.subrange(0, 0) =~= Seq::<TargetSnapshot>::empty());
    while rev.len() > 0
        invariant
            all.len() == n,
            i + rev@.len() == n,
            forall|k: int| 0 <= k < rev@.len() ==> #[trigger] rev@[k] == all[n - 1 - k],
            r@ == sort_by_id(all.subrange(0, i as int)),
            r@.len() == i,
        decreases rev@.len(),
    {
        let t = rev.pop().unwrap();
        assert(t == all[i as int]);
        let mut j = r.len();
        while j > 0 && text_less(t.id.as_str(), r[j - 1].id.as_str())
            invariant
                j <= r@.len(),
                forall|k: int| j <= k < r@.len() ==> text_lt(t.id@, #[trigger] r@[k].id@),
            decreases j,
        {
            j = j - 1;
        }
        proof {
            lemma_insert_id_at(r@, t, j as int);
            assert(all.subrange(0, i + 1).drop_last() =~= all.subrange(0, i as int));
        }
        r.insert(j, t);
        i = i + 1;
    }
    assert(all.subrange(0, n as int) =~= all);
    proof {
        lemma_sort_by_id_permutes(all);
    }
    r
}


proof fn lemma_text_lt_irreflexive(a: Seq<char>)
    ensures
        !text_lt(a, a),
    decreases a.len(),
{
    if a.len() > 0 {
        lemma_text_lt_irreflexive(a.drop_first());
    }
}

proof fn lemma_text_lt_trans(a: Seq<char>, b: Seq<char>, c: Seq<char>)
    requires
        text_lt(a, b),
        text_lt(b, c),
    ensures
        text_lt(a, c),
    decreases a.len(),
{
    if a.len() > 0 && b.len() > 0 && c.len() > 0 && a[0] == b[0] && b[0] == c[0] {
        lemma_text_lt_trans(a.drop_first(), b.drop_first(), c.drop_first());
    }
}

proof fn lemma_text_lt_total(a: Seq<char>, b: Seq<char>)
    ensures
        a == b || text_lt(a, b) || text_lt(b, a),
    decreases a.len(),
{
    if a.len() > 0 && b.len() > 0 && a[0] == b[0] {
        lemma_text_lt_total(a.drop_first(), b.drop_first());
        if a.drop_first() == b.drop_first() {
            assert(a =~= seq![a[0]] + a.drop_first());
            assert(b =~= seq![b[0]] + b.drop_first());
        }
    } else if a.len() == 0 && b.len() == 0 {
        assert(a =~= b);
    }
}

/// `b`'s id does not order before `a`'s.
pub open spec fn id_le(a: TargetSnapshot, b: TargetSnapshot) -> bool {
    !text_lt(b.id@, a.id@)
}

/// Snapshots in order of id.
pub open spec fn id_sorted(s: Seq<TargetSnapshot>) -> bool {
    forall|i: int, j: int| 0 <= i < j < s.len() ==> id_le(#[trigger] s[i], #[trigger] s[j])
}

proof fn lemma_id_le_trans(a: TargetSnapshot, b: TargetSnapshot, c: TargetSnapshot)
    requires
        id_le(a, b),
        id_le(b, c),
    ensures
        id_le(a, c),
{
    lemma_text_lt_total(a.id@, b.id@);
    lemma_text_lt_total(b.id@, c.id@);
    lemma_text_lt_irreflexive(a.id@);
    if text_lt(c.id@, a.id@) {
        if text_lt(a.id@, b.id@) {
            lemma_text_lt_trans(c.id@, a.id@, b.id@);
            if text_lt(b.id@, c.id@) {
                lemma_text_lt_trans(b.id@, c.id@, b.id@);
                lemma_text_lt_irreflexive(b.id@);
            }
        } else if text_lt(b.id@, c.id@) {
            lemma_text_lt_trans(b.id@, c.id@, a.id@);
        }
    }
}

proof fn lemma_insert_by_id_facts(s: Seq<TargetSnapshot>, t: TargetSnapshot)
    requires
        id_sorted(s),
    ensures
        id_sorted(insert_by_id(s, t)),
        insert_by_id(s, t).to_multiset() == s.to_multiset().insert(t),
        insert_by_id(s, t).len() == s.len() + 1,
        forall|k: int|
            0 <= k < insert_by_id(s, t).len() ==> insert_by_id(s, t)[k] == t || s.contains(
                #[trigger] insert_by_id(s, t)[k],
            ),
    decreases s.len(),
{
    broadcast use vstd::seq_lib::group_to_multiset_ensures;

    let r = insert_by_id(s, t);
    if s.len() == 0 {
        assert(seq![t] =~= s.push(t));
    } else if !text_lt(t.id@, s.last().id@) {
        assert forall|i: int, j: int| 0 <= i < j < r.len() implies id_le(
            #[trigger] r[i],
            #[trigger] r[j],
        ) by {
            if j == s.len() {
                if i < s.len() - 1 {
                    lemma_id_le_trans(s[i], s.last(), t);
                }
            }
        }
        assert forall|k: int| 0 <= k < r.len() implies r[k] == t || s.contains(#[trigger] r[k]) by {
            if k < s.len() {
                assert(r[k] == s[k]);
            }
        }
    } else {
        let d = s.drop_last();
        assert(id_sorted(d)) by {
            assert forall|i: int, j: int| 0 <= i < j < d.len() implies id_le(
                #[trigger] d[i],
                #[trigger] d[j],
            ) by {
                assert(d[i] == s[i] && d[j] == s[j]);
            }
        }
        lemma_insert_by_id_facts(d, t);
        let q = insert_by_id(d, t);
        assert(d.push(s.last()) =~= s);
        assert(r.to_multiset() =~= s.to_multiset().insert(t));
        assert forall|k: int| 0 <= k < r.len() implies r[k] == t || s.contains(#[trigger] r[k]) by {
            if k < q.len() {
                assert(r[k] == q[k]);
                if q[k] != t {
                    assert(d.contains(q[k]));
                    let m = choose|m: int| 0 <= m < d.len() && d[m] == q[k];
                    assert(s[m] == d[m]);
                }
            } else {
                assert(r[k] == s[s.len() - 1]);
            }
        }
        assert forall|i: int, j: int| 0 <= i < j < r.len() implies id_le(
            #[trigger] r[i],
            #[trigger] r[j],
        ) by {
            if j == r.len() - 1 {
                assert(r[j] == s.last());
                assert(r[i] == q[i]);
                if q[i] == t {
                    lemma_text_lt_total(t.id@, s.last().id@);
                    lemma_text_lt_irreflexive(s.last().id@);
                    if text_lt(s.last().id@, t.id@) {
                        lemma_text_lt_trans(s.last().id@, t.id@, s.last().id@);
                    }
                } else {
                    assert(d.contains(q[i]));
                    let m = choose|m: int| 0 <= m < d.len() && d[m] == q[i];
                    assert(s[m] == d[m]);
                    assert(id_le(s[m], s[s.len() - 1]));
                }
            } else {
                assert(r[i] == q[i] && r[j] == q[j]);
            }
        }
    }
}

/// Ordering targets by id reorders them and nothing more: the result is in
/// order of id and holds exactly the snapshots it was given.
pub proof fn lemma_sort_by_id_permutes(s: Seq<TargetSnapshot>)
    ensures
        sort_by_id(s).to_multiset() == s.to_multiset(),
        id_sorted(sort_by_id(s)),
        sort_by_id(s).len() == s.len(),
    decreases s.len(),
{
    broadcast use vstd::seq_lib::group_to_multiset_ensures;

    if s.len() > 0 {
        let d = s.drop_last();
        lemma_sort_by_id_permutes(d);
        lemma_insert_by_id_facts(sort_by_id(d), s.last());
        assert(d.push(s.last()) =~= s);
    }
}


/// Snapshots in strictly ascending order of id.
pub open spec fn id_strictly_sorted(s: Seq<TargetSnapshot>) -> bool {
    forall|i: int, j: int| 0 <= i < j < s.len() ==> text_lt(#[trigger] s[i].id@, #[trigger] s[j].id@)
}

proof fn lemma_insert_by_id_strict(s: Seq<TargetSnapshot>, t: TargetSnapshot)
    requires
        id_strictly_sorted(s),
        forall|k: int| 0 <= k < s.len() ==> (#[trigger] s[k]).id@ != t.id@,
    ensures
        id_strictly_sorted(insert_by_id(s, t)),
        forall|k: int|
            0 <= k < insert_by_id(s, t).len() ==> insert_by_id(s, t)[k] == t || s.contains(
                #[trigger] insert_by_id(s, t)[k],
            ),
        insert_by_id(s, t).len() == s.len() + 1,
    decreases s.len(),
{
    let r = insert_by_id(s, t);
    if s.len() == 0 {
    } else if !text_lt(t.id@, s.last().id@) {
        lemma_text_lt_total(t.id@, s.last().id@);
        assert forall|i: int, j: int| 0 <= i < j < r.len() implies text_lt(
            #[trigger] r[i].id@,
            #[trigger] r[j].id@,
        ) by {
            if j == s.len() {
                assert(r[j] == t && r[i] == s[i]);
                if i < s.len() - 1 {
                    lemma_text_lt_trans(s[i].id@, s.last().id@, t.id@);
                }
            } else {
                assert(r[i] == s[i] && r[j] == s[j]);
            }
        }
        assert forall|k: int| 0 <= k < r.len() implies r[k] == t || s.contains(#[trigger] r[k]) by {
            if k < s.len() {
                assert(r[k] == s[k]);
            }
        }
    } else {
        let d = s.drop_last();
        assert forall|k: int| 0 <= k < d.len() implies (#[trigger] d[k]).id@ != t.id@ by {
            assert(d[k] == s[k]);
        }
        assert(id_strictly_sorted(d)) by {
            assert forall|i: int, j: int| 0 <= i < j < d.len() implies text_lt(
                #[trigger] d[i].id@,
                #[trigger] d[j].id@,
            ) by {
                assert(d[i] == s[i] && d[j] == s[j]);
            }
        }
        lemma_insert_by_id_strict(d, t);
        let q = insert_by_id(d, t);
        assert forall|k: int| 0 <= k < r.len() implies r[k] == t || s.contains(#[trigger] r[k]) by {
            if k < q.len() {
                assert(r[k] == q[k]);
                if q[k] != t {
                    assert(d.contains(q[k]));
                    let m = choose|m: int| 0 <= m < d.len() && d[m] == q[k];
                    assert(s[m] == d[m]);
                }
            } else {
                assert(r[k] == s[s.len() - 1]);
            }
        }
        assert forall|i: int, j: int| 0 <= i < j < r.len() implies text_lt(
            #[trigger] r[i].id@,
            #[trigger] r[j].id@,
        ) by {
            if j == r.len() - 1 {
                assert(r[j] == s.last());
                assert(r[i] == q[i]);
                if q[i] != t {
                    assert(d.contains(q[i]));
                    let m = choose|m: int| 0 <= m < d.len() && d[m] == q[i];
                    assert(s[m] == d[m]);
                }
            } else {
                assert(r[i] == q[i] && r[j] == q[j]);
            }
        }
    }
}

/// Targets with distinct ids, ordered by id, come in strictly ascending
/// order of id.
pub proof fn lemma_sort_by_id_strict(s: Seq<TargetSnapshot>)
    requires
        distinct_ids(s),
    ensures
        id_strictly_sorted(sort_by_id(s)),
    decreases s.len(),
{
    broadcast use vstd::seq_lib::group_to_multiset_ensures;

    if s.len() > 0 {
        let d = s.drop_last();
        let t = s.last();
        assert(distinct_ids(d)) by {
            assert forall|i: int, j: int| 0 <= i < j < d.len() implies (#[trigger] d[i]).id@
                != (#[trigger] d[j]).id@ by {
                assert(d[i] == s[i] && d[j] == s[j]);
            }
        }
        lemma_sort_by_id_strict(d);
        lemma_sort_by_id_permutes(d);
        let q = sort_by_id(d);
        assert forall|k: int| 0 <= k < q.len() implies (#[trigger] q[k]).id@ != t.id@ by {
            assert(q.contains(q[k]));
            assert(q.to_multiset().count(q[k]) > 0);
            assert(d.contains(q[k]));
            let m = choose|m: int| 0 <= m < d.len() && d[m] == q[k];
            assert(s[m] == d[m]);
        }
        lemma_insert_by_id_strict(q, t);
    }
}

} // verus!
