use opensdts::double::Double;
use opensdts::protocol::target_update;
use opensdts::recording::{collect_envelopes, is_space, join_lines, split_recording, RecordingText};

fn d(x: f64) -> Double {
    Double { bits: x.to_bits() }
}

#[test]
fn array_text_is_recognised_after_leading_whitespace() {
    match split_recording("  \n\t[{\"type\":\"x\"}]") {
        RecordingText::Array(t) => assert_eq!(t, "[{\"type\":\"x\"}]"),
        RecordingText::Lines(_) => panic!("expected an array"),
    }
}

#[test]
fn lines_skip_blank_ones_and_drop_carriage_returns() {
    match split_recording("a\r\n\n   \nb\n\t\nc") {
        RecordingText::Lines(ls) => assert_eq!(ls, vec!["a", "b", "c"]),
        RecordingText::Array(_) => panic!("expected lines"),
    }
    match split_recording("") {
        RecordingText::Lines(ls) => assert!(ls.is_empty()),
        RecordingText::Array(_) => panic!("expected lines"),
    }
    match split_recording("x\n") {
        RecordingText::Lines(ls) => assert_eq!(ls, vec!["x"]),
        RecordingText::Array(_) => panic!("expected lines"),
    }
}

#[test]
fn load_recording_rejects_garbage() {
    let parsed = vec![None, None];
    let err = collect_envelopes(parsed).unwrap_err();
    assert_eq!(err.to_string(), "recording contains no valid SDTP envelopes");
    assert!(collect_envelopes(Vec::new()).is_err());
}

#[test]
fn collected_envelopes_keep_their_order() {
    let a = target_update(d(1.0), "a", d(0.0), d(0.0), true, d(1.0));
    let b = target_update(d(2.0), "b", d(0.0), d(0.0), true, d(1.0));
    let out = collect_envelopes(vec![Some(a), None, Some(b)]).unwrap();
    assert_eq!(out.len(), 2);
    assert_eq!(out[0].data.target_id.as_deref(), Some("a"));
    assert_eq!(out[1].data.target_id.as_deref(), Some("b"));
}

#[test]
fn joined_lines_have_no_trailing_newline() {
    assert_eq!(join_lines(&vec![]), "");
    assert_eq!(join_lines(&vec!["a".to_string()]), "a");
    assert_eq!(join_lines(&vec!["a".to_string(), "b".to_string(), "".to_string()]), "a\nb\n");
}

#[test]
fn joined_lines_split_back_into_the_same_lines() {
    let lines = vec!["{\"type\":\"a\"}".to_string(), "{\"type\":\"b\"}".to_string()];
    match split_recording(&join_lines(&lines)) {
        RecordingText::Lines(ls) => assert_eq!(ls, lines),
        RecordingText::Array(_) => panic!("expected lines"),
    }
}

#[test]
fn whitespace_is_unicode_white_space() {
    for c in [' ', '\t', '\n', '\r', '\u{0B}', '\u{0C}', '\u{85}', '\u{A0}', '\u{2003}', '\u{3000}'] {
        assert!(is_space(c), "{:?}", c);
        assert_eq!(is_space(c), c.is_whitespace());
    }
    for c in ['a', '[', '0', '\u{200B}', '\u{FEFF}'] {
        assert!(!is_space(c));
        assert_eq!(is_space(c), c.is_whitespace());
    }
}
