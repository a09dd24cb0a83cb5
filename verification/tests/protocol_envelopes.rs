use opensdts::double::Double;
use opensdts::protocol::{
    impact, result, session_start, target_spawn, target_update, TYPE_IMPACT, TYPE_RESULT,
    TYPE_SESSION_START, TYPE_TARGET_SPAWN, TYPE_TARGET_UPDATE,
};

fn d(x: f64) -> Double {
    Double { bits: x.to_bits() }
}

#[test]
fn result_contains_impact_coordinates() {
    let env = result(d(1.5), "circle-1", "impact-1", true, d(5.0), d(110.0), d(220.0), None);
    assert_eq!(env.data.x_mm, Some(d(110.0)));
    assert_eq!(env.data.y_mm, Some(d(220.0)));
}

#[test]
fn result_carries_the_hit_budget_when_there_is_one() {
    let env = result(d(2.0), "t", "i", true, d(1.0), d(3.0), d(4.0), Some(7));
    assert_eq!(env.kind, TYPE_RESULT);
    assert_eq!(env.source, "core");
    assert_eq!(env.data.hits_remaining, Some(7));
    assert_eq!(env.data.hit, Some(true));
    assert_eq!(env.data.distance_mm, Some(d(1.0)));
    assert_eq!(env.data.target_id.as_deref(), Some("t"));
    assert_eq!(env.data.impact_id.as_deref(), Some("i"));
    assert_eq!(env.data.visible, None);
}

#[test]
fn constructors_fill_exactly_their_fields() {
    let s = session_start(d(0.0), "sess", d(800.0), d(600.0), "zigzag.json");
    assert_eq!(s.kind, TYPE_SESSION_START);
    assert_eq!(s.data.session_id.as_deref(), Some("sess"));
    assert_eq!(s.data.scenario.as_deref(), Some("zigzag.json"));
    assert_eq!(s.data.arena_width_mm, Some(d(800.0)));
    assert_eq!(s.data.arena_height_mm, Some(d(600.0)));
    assert_eq!(s.data.target_id, None);

    let sp = target_spawn(d(0.0), "c", "circle", d(50.0), "#fff", "#000");
    assert_eq!(sp.kind, TYPE_TARGET_SPAWN);
    assert_eq!(sp.data.shape.as_deref(), Some("circle"));
    assert_eq!(sp.data.radius_mm, Some(d(50.0)));
    assert_eq!(sp.data.fill.as_deref(), Some("#fff"));
    assert_eq!(sp.data.stroke.as_deref(), Some("#000"));

    let u = target_update(d(1.5), "circle-1", d(10.0), d(20.0), true, d(50.0));
    assert_eq!(u.kind, TYPE_TARGET_UPDATE);
    assert_eq!(u.time, d(1.5));
    assert_eq!(u.data.x_mm, Some(d(10.0)));
    assert_eq!(u.data.y_mm, Some(d(20.0)));
    assert_eq!(u.data.visible, Some(true));
    assert_eq!(u.data.radius_mm, Some(d(50.0)));

    let i = impact(d(1.0), "mouse", "abc", d(1.0), d(2.0));
    assert_eq!(i.kind, TYPE_IMPACT);
    assert_eq!(i.source, "mouse");
    assert_eq!(i.data.impact_id.as_deref(), Some("abc"));
    assert_eq!(i.data.x_mm, Some(d(1.0)));
}
