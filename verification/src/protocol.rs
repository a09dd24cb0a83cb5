//! SDTP envelopes: `{ type, time, source, data }`, with the data fields that
//! the engine reads or writes, and the constructors of each message kind.
use vstd::prelude::*;

use crate::double::Double;

verus! {

pub const TYPE_SESSION_START: &'static str = "session_start";

pub const TYPE_TARGET_SPAWN: &'static str = "target_spawn";

pub const TYPE_TARGET_UPDATE: &'static str = "target_update";

pub const TYPE_IMPACT: &'static str = "impact";

pub const TYPE_RESULT: &'static str = "result";

/// The fields of an envelope's `data` object that the engine reads or writes.
/// Each is what reading that key gives: `None` when it is absent or of
/// another JSON type. `raw` keeps the object's JSON text when the envelope
/// was read from a recording, so that unknown fields survive re-export.
#[derive(Debug, Clone)]
pub struct EnvelopeData {
    pub session_id: Option<String>,
    pub scenario: Option<String>,
    pub target_id: Option<String>,
    pub impact_id: Option<String>,
    pub shape: Option<String>,
    pub fill: Option<String>,
    pub stroke: Option<String>,
    pub arena_width_mm: Option<Double>,
    pub arena_height_mm: Option<Double>,
    pub x_mm: Option<Double>,
    pub y_mm: Option<Double>,
    pub radius_mm: Option<Double>,
    pub distance_mm: Option<Double>,
    pub visible: Option<bool>,
    pub hit: Option<bool>,
    pub hits_remaining: Option<u64>,
    pub raw: Option<String>,
}

/// The SDTP envelope.
#[derive(Debug, Clone)]
pub struct Envelope {
    pub kind: String,
    pub time: Double,
    pub source: String,
    pub data: EnvelopeData,
}

/// Payload of an incoming `impact` message.
#[derive(Debug, Clone)]
pub struct ImpactData {
    pub impact_id: String,
    pub x_mm: Double,
    pub y_mm: Double,
}

/// Data with no field set.
pub open spec fn no_data() -> EnvelopeData {
    EnvelopeData {
        session_id: None,
        scenario: None,
        target_id: None,
        impact_id: None,
        shape: None,
        fill: None,
        stroke: None,
        arena_width_mm: None,
        arena_height_mm: None,
        x_mm: None,
        y_mm: None,
        radius_mm: None,
        distance_mm: None,
        visible: None,
        hit: None,
        hits_remaining: None,
        raw: None,
    }
}

pub fn empty_data() -> (d: EnvelopeData)
    ensures
        d == no_data(),
{
    EnvelopeData {
        session_id: None,
        scenario: None,
        target_id: None,
        impact_id: None,
        shape: None,
        fill: None,
        stroke: None,
        arena_width_mm: None,
        arena_height_mm: None,
        x_mm: None,
        y_mm: None,
        radius_mm: None,
        distance_mm: None,
        visible: None,
        hit: None,
        hits_remaining: None,
        raw: None,
    }
}

fn text(s: &str) -> (r: String)
    ensures
        r@ == s@,
{
    s.to_string()
}

/// Same text: the two strings hold the same characters.
pub fn same_text(a: &str, b: &str) -> (r: bool)
    ensures
        r == (a@ == b@),
{
    let x = crate::names::chars_of(a);
    let y = crate::names::chars_of(b);
    if x.len() != y.len() {
        return false;
    }
    let mut i: usize = 0;
    while i < x.len()
        invariant
            x@ == a@,
            y@ == b@,
            x@.len() == y@.len(),
            i <= x@.len(),
            forall|k: int| 0 <= k < i ==> x@[k] == y@[k],
        decreases x@.len() - i,
    {
        if x[i] != y[i] {
            return false;
        }
        i = i + 1;
    }
    assert(x@ =~= y@);
    true
}

/// `e` is the `session_start` envelope of these values.
pub open spec fn is_session_start_of(
    e: Envelope,
    time: Double,
    session_id: Seq<char>,
    arena_width_mm: Double,
    arena_height_mm: Double,
    scenario: Seq<char>,
) -> bool {
    &&& e.kind@ == TYPE_SESSION_START@
    &&& e.time == time
    &&& e.source@ == "core"@
    &&& e.data.session_id matches Some(s) && s@ == session_id
    &&& e.data.scenario matches Some(s) && s@ == scenario
    &&& e.data == (EnvelopeData {
        session_id: e.data.session_id,
        scenario: e.data.scenario,
        arena_width_mm: Some(arena_width_mm),
        arena_height_mm: Some(arena_height_mm),
        ..no_data()
    })
}

/// `e` is the `target_spawn` envelope of these values.
pub open spec fn is_target_spawn_of(
    e: Envelope,
    time: Double,
    target_id: Seq<char>,
    shape: Seq<char>,
    radius_mm: Double,
    fill: Seq<char>,
    stroke: Seq<char>,
) -> bool {
    &&& e.kind@ == TYPE_TARGET_SPAWN@
    &&& e.time == time
    &&& e.source@ == "core"@
    &&& e.data.target_id matches Some(s) && s@ == target_id
    &&& e.data.shape matches Some(s) && s@ == shape
    &&& e.data.fill matches Some(s) && s@ == fill
    &&& e.data.stroke matches Some(s) && s@ == stroke
    &&& e.data == (EnvelopeData {
        target_id: e.data.target_id,
        shape: e.data.shape,
        fill: e.data.fill,
        stroke: e.data.stroke,
        radius_mm: Some(radius_mm),
        ..no_data()
    })
}

/// `e` is the `target_update` envelope of these values.
pub open spec fn is_target_update_of(
    e: Envelope,
    time: Double,
    target_id: Seq<char>,
    x_mm: Double,
    y_mm: Double,
    visible: bool,
    radius_mm: Double,
) -> bool {
    &&& e.kind@ == TYPE_TARGET_UPDATE@
    &&& e.time == time
    &&& e.source@ == "core"@
    &&& e.data.target_id matches Some(s) && s@ == target_id
    &&& e.data == (EnvelopeData {
        target_id: e.data.target_id,
        x_mm: Some(x_mm),
        y_mm: Some(y_mm),
        visible: Some(visible),
        radius_mm: Some(radius_mm),
        ..no_data()
    })
}

/// `e` is the `impact` envelope of these values.
pub open spec fn is_impact_of(
    e: Envelope,
    time: Double,
    source: Seq<char>,
    impact_id: Seq<char>,
    x_mm: Double,
    y_mm: Double,
) -> bool {
    &&& e.kind@ == TYPE_IMPACT@
    &&& e.time == time
    &&& e.source@ == source
    &&& e.data.impact_id matches Some(s) && s@ == impact_id
    &&& e.data == (EnvelopeData {
        impact_id: e.data.impact_id,
        x_mm: Some(x_mm),
        y_mm: Some(y_mm),
        ..no_data()
    })
}

/// `e` is the `result` envelope of these values.
pub open spec fn is_result_of(
    e: Envelope,
    time: Double,
    target_id: Seq<char>,
    impact_id: Seq<char>,
    hit: bool,
    distance_mm: Double,
    impact_x_mm: Double,
    impact_y_mm: Double,
    hits_remaining: Option<u32>,
) -> bool {
    &&& e.kind@ == TYPE_RESULT@
    &&& e.time == time
    &&& e.source@ == "core"@
    &&& e.data.target_id matches Some(s) && s@ == target_id
    &&& e.data.impact_id matches Some(s) && s@ == impact_id
    &&& e.data == (EnvelopeData {
        target_id: e.data.target_id,
        impact_id: e.data.impact_id,
        hit: Some(hit),
        distance_mm: Some(distance_mm),
        x_mm: Some(impact_x_mm),
        y_mm: Some(impact_y_mm),
        hits_remaining: match hits_remaining {
            Some(n) => Some(n as u64),
            None => None,
        },
        ..no_data()
    })
}

/// The `session_start` envelope that opens a session.
pub fn session_start(
    time: Double,
    session_id: &str,
    arena_width_mm: Double,
    arena_height_mm: Double,
    scenario: &str,
) -> (e: Envelope)
    ensures
        is_session_start_of(e, time, session_id@, arena_width_mm, arena_height_mm, scenario@),
{
    let mut data = empty_data();
    data.session_id = Some(text(session_id));
    data.scenario = Some(text(scenario));
    data.arena_width_mm = Some(arena_width_mm);
    data.arena_height_mm = Some(arena_height_mm);
    Envelope { kind: text(TYPE_SESSION_START), time, source: text("core"), data }
}

/// The `target_spawn` envelope describing how to draw a target.
pub fn target_spawn(
    time: Double,
    target_id: &str,
    shape: &str,
    radius_mm: Double,
    fill: &str,
    stroke: &str,
) -> (e: Envelope)
    ensures
        is_target_spawn_of(e, time, target_id@, shape@, radius_mm, fill@, stroke@),
{
    let mut data = empty_data();
    data.target_id = Some(text(target_id));
    data.shape = Some(text(shape));
    data.radius_mm = Some(radius_mm);
    data.fill = Some(text(fill));
    data.stroke = Some(text(stroke));
    Envelope { kind: text(TYPE_TARGET_SPAWN), time, source: text("core"), data }
}

/// The `target_update` envelope: position, visibility and live radius.
pub fn target_update(
    time: Double,
    target_id: &str,
    x_mm: Double,
    y_mm: Double,
    visible: bool,
    radius_mm: Double,
) -> (e: Envelope)
    ensures
        is_target_update_of(e, time, target_id@, x_mm, y_mm, visible, radius_mm),
{
    let mut data = empty_data();
    data.target_id = Some(text(target_id));
    data.x_mm = Some(x_mm);
    data.y_mm = Some(y_mm);
    data.visible = Some(visible);
    data.radius_mm = Some(radius_mm);
    Envelope { kind: text(TYPE_TARGET_UPDATE), time, source: text("core"), data }
}

/// The `impact` envelope an impact adapter sends.
pub fn impact(time: Double, source: &str, impact_id: &str, x_mm: Double, y_mm: Double) -> (e:
    Envelope)
    ensures
        is_impact_of(e, time, source@, impact_id@, x_mm, y_mm),
{
    let mut data = empty_data();
    data.impact_id = Some(text(impact_id));
    data.x_mm = Some(x_mm);
    data.y_mm = Some(y_mm);
    Envelope { kind: text(TYPE_IMPACT), time, source: text(source), data }
}

/// The `result` envelope the core emits after scoring an impact. `x_mm` and
/// `y_mm` are the impact's coordinates; `hits_remaining` is `None` unless the
/// target has a durability budget.
pub fn result(
    time: Double,
    target_id: &str,
    impact_id: &str,
    hit: bool,
    distance_mm: Double,
    impact_x_mm: Double,
    impact_y_mm: Double,
    hits_remaining: Option<u32>,
) -> (e: Envelope)
    ensures
        is_result_of(
            e,
            time,
            target_id@,
            impact_id@,
            hit,
            distance_mm,
            impact_x_mm,
            impact_y_mm,
            hits_remaining,
        ),
{
    let mut data = empty_data();
    data.target_id = Some(text(target_id));
    data.impact_id = Some(text(impact_id));
    data.hit = Some(hit);
    data.distance_mm = Some(distance_mm);
    data.x_mm = Some(impact_x_mm);
    data.y_mm = Some(impact_y_mm);
    data.hits_remaining = match hits_remaining {
        Some(n) => Some(n as u64),
        None => None,
    };
    Envelope { kind: text(TYPE_RESULT), time, source: text("core"), data }
}

} // verus!
