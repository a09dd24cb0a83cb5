use opensdts::ids::{civil_from_days, generated_session_id, new_session_id, session_id_at};

#[test]
fn civil_from_days_known_dates() {
    assert_eq!(civil_from_days(0), (1970, 1, 1));
    assert_eq!(civil_from_days(31), (1970, 2, 1));
    assert_eq!(civil_from_days(59), (1970, 3, 1));
    assert_eq!(civil_from_days(10957), (2000, 1, 1));
    assert_eq!(civil_from_days(11016), (2000, 2, 29));
    assert_eq!(civil_from_days(11017), (2000, 3, 1));
    assert_eq!(civil_from_days(-1), (1969, 12, 31));
    assert_eq!(civil_from_days(-719468), (0, 3, 1));
    assert_eq!(civil_from_days(20659), (2026, 7, 25));
}

#[test]
fn session_id_is_readable_utc_timestamp() {
    // 2026-07-25 20:15:30 UTC
    let secs = 20659u64 * 86_400 + 20 * 3600 + 15 * 60 + 30;
    assert_eq!(session_id_at(secs, 123), "20260725-201530-123");
    assert_eq!(session_id_at(0, 0), "19700101-000000-000");
    assert_eq!(session_id_at(86_399, 999), "19700101-235959-999");
    assert_eq!(session_id_at(86_400, 5), "19700102-000000-005");
}

#[test]
fn session_ids_sort_chronologically() {
    let a = session_id_at(1_000_000_000, 1);
    let b = session_id_at(1_000_000_000, 2);
    let c = session_id_at(1_700_000_000, 0);
    assert!(a < b && b < c);
}

#[test]
fn wall_clock_session_id_has_the_timestamp_shape() {
    let id = new_session_id().expect("clock after the epoch");
    assert_eq!(id.len(), 19);
    let bytes = id.as_bytes();
    assert_eq!(bytes[8], b'-');
    assert_eq!(bytes[15], b'-');
    assert!(id.starts_with("20"));
}

#[test]
fn generated_session_ids_are_zero_padded_counters() {
    assert_eq!(generated_session_id(1), "engine-session-000001");
    assert_eq!(generated_session_id(42), "engine-session-000042");
    assert_eq!(generated_session_id(1234567), "engine-session-1234567");
}
