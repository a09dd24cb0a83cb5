use opensdts::names::{
    default_scenario, recordings_newest_first, safe_recording_name, safe_scenario_name, EngineError,
    RecordingFile, DEFAULT_SCENARIO, RECORDINGS_DIR, SCENARIOS_DIR,
};

#[test]
fn recording_names_cannot_escape_the_recordings_directory() {
    assert_eq!(safe_recording_name("session.jsonl"), Ok("session.jsonl"));
    assert!(safe_recording_name("../session.jsonl").is_err());
    assert!(safe_recording_name("subdir/session.jsonl").is_err());
    assert!(safe_recording_name("session.json").is_err());
}

#[test]
fn recording_names_refuse_empty_and_dot_entries() {
    assert!(safe_recording_name("").is_err());
    assert!(safe_recording_name(".").is_err());
    assert!(safe_recording_name("..").is_err());
    assert!(safe_recording_name("/abs/session.jsonl").is_err());
    assert_eq!(safe_recording_name(".jsonl"), Ok(".jsonl"));
}

#[test]
fn scenario_names_must_be_bare_json_files() {
    assert_eq!(safe_scenario_name("zigzag.json").unwrap(), "zigzag.json");
    let err = safe_scenario_name("../zigzag.json").unwrap_err();
    assert_eq!(err, EngineError("invalid scenario filename".to_string()));
    assert_eq!(err.to_string(), "invalid scenario filename");
    assert!(safe_scenario_name("dir/zigzag.json").is_err());
    assert!(safe_scenario_name("zigzag.jsonl").is_err());
    assert!(safe_scenario_name("zigzag").is_err());
    assert!(safe_scenario_name("").is_err());
}

#[test]
fn default_scenario_and_directories() {
    assert_eq!(default_scenario(), "zigzag.json");
    assert_eq!(DEFAULT_SCENARIO, "zigzag.json");
    assert_eq!(SCENARIOS_DIR, "scenarios");
    assert_eq!(RECORDINGS_DIR, "recordings");
}

#[test]
fn recordings_are_listed_newest_first_and_only_jsonl_files() {
    let files = vec![
        RecordingFile { name: "20250101-000000-000.jsonl".to_string(), size: 10 },
        RecordingFile { name: "notes.txt".to_string(), size: 3 },
        RecordingFile { name: ".jsonl".to_string(), size: 1 },
        RecordingFile { name: "20260725-201530-123.jsonl".to_string(), size: 20 },
        RecordingFile { name: "old.JSONL".to_string(), size: 4 },
        RecordingFile { name: "20250601-120000-500.jsonl".to_string(), size: 30 },
    ];
    let listed = recordings_newest_first(&files);
    let names: Vec<(&str, u64)> = listed.iter().map(|f| (f.name.as_str(), f.size)).collect();
    assert_eq!(
        names,
        vec![
            ("20260725-201530-123.jsonl", 20),
            ("20250601-120000-500.jsonl", 30),
            ("20250101-000000-000.jsonl", 10),
        ]
    );
    assert!(recordings_newest_first(&Vec::new()).is_empty());
}
