use encounter::machine::encounter_process;
use encounter::mode::Mode;
use encounter::state::EncounterState;
use encounter::stats::MonStats;
use serde_json::Value;

fn to_json(state: &EncounterState) -> String {
    let mut stats = serde_json::Map::new();
    for (name, count) in state.mon_stats.entries() {
        stats.insert(name, Value::from(count));
    }
    let mut object = serde_json::Map::new();
    object.insert("encounters".to_string(), Value::from(state.encounters));
    object.insert("last_encounter".to_string(), Value::from(state.last_encounter.clone()));
    object.insert("mode".to_string(), Value::from(state.mode.name()));
    object.insert("mon_stats".to_string(), Value::Object(stats));
    serde_json::to_string(&Value::Object(object)).unwrap()
}

fn from_json(text: &str) -> EncounterState {
    let value: Value = serde_json::from_str(text).unwrap();
    let entries = value["mon_stats"]
        .as_object()
        .unwrap()
        .iter()
        .map(|(name, count)| (name.clone(), count.as_u64().unwrap() as u32))
        .collect();
    EncounterState {
        encounters: value["encounters"].as_u64().unwrap() as u32,
        last_encounter: value["last_encounter"]
            .as_array()
            .unwrap()
            .iter()
            .map(|name| name.as_str().unwrap().to_string())
            .collect(),
        mode: Mode::from_name(value["mode"].as_str().unwrap()).unwrap(),
        mon_stats: MonStats::from_entries(entries).unwrap(),
    }
}

fn sorted(mut entries: Vec<(String, u32)>) -> Vec<(String, u32)> {
    entries.sort();
    entries
}

#[test]
fn state_written_and_read_back_is_the_same() {
    let mut state = EncounterState::default();
    state.mode = Mode::Walk;
    let frames = vec![
        vec!["eevee".to_string(), "mew".to_string(), "eevee".to_string()],
        vec![],
        vec!["abra".to_string()],
    ];
    assert_eq!(encounter_process(&mut state, &frames), Ok(()));
    let text = to_json(&state);
    let loaded = from_json(&text);
    assert_eq!(loaded.encounters, 3);
    assert_eq!(loaded.encounters, state.encounters);
    assert_eq!(loaded.last_encounter, state.last_encounter);
    assert_eq!(loaded.mode, Mode::Encounter);
    assert_eq!(sorted(loaded.mon_stats.entries()), sorted(state.mon_stats.entries()));
    assert_eq!(loaded.mon_stats.get("eevee"), Some(2));
    assert_eq!(loaded.mon_stats.get("mew"), Some(1));
    assert_eq!(to_json(&from_json(&text)), to_json(&from_json(&to_json(&loaded))));
}

#[test]
fn fresh_state_written_and_read_back_is_the_same() {
    let state = EncounterState::default();
    let text = to_json(&state);
    assert_eq!(text, r#"{"encounters":0,"last_encounter":[],"mode":"Init","mon_stats":{}}"#);
    let loaded = from_json(&text);
    assert_eq!(loaded.encounters, 0);
    assert!(loaded.last_encounter.is_empty());
    assert_eq!(loaded.mode, Mode::Init);
    assert_eq!(loaded.mon_stats.len(), 0);
}
