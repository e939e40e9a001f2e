use encounter::machine::{encounter_process, pick_longest, plan_cycle, EncounterError};
use encounter::mode::Mode;
use encounter::state::EncounterState;
use encounter::stats::MonStats;

fn names(items: &[&str]) -> Vec<String> {
    items.iter().map(|s| s.to_string()).collect()
}

fn walking() -> EncounterState {
    let mut state = EncounterState::default();
    state.mode = Mode::Walk;
    state
}

#[test]
fn default_state_is_empty_and_init() {
    let state = EncounterState::default();
    assert_eq!(state.encounters, 0);
    assert!(state.last_encounter.is_empty());
    assert_eq!(state.mode, Mode::Init);
    assert_eq!(state.mon_stats.len(), 0);
}

#[test]
fn encounter_ends_when_all_three_frames_are_empty() {
    let mut state = walking();
    state.mode = Mode::Encounter;
    state.encounters = 7;
    let frames = vec![names(&[]), names(&[]), names(&[])];
    assert_eq!(encounter_process(&mut state, &frames), Ok(()));
    assert_eq!(state.mode, Mode::Walk);
    assert_eq!(state.encounters, 7);
}

#[test]
fn encounter_stays_when_one_of_three_frames_shows_a_name() {
    let mut state = walking();
    state.mode = Mode::Encounter;
    let frames = vec![names(&[]), names(&["eevee"]), names(&[])];
    assert_eq!(encounter_process(&mut state, &frames), Ok(()));
    assert_eq!(state.mode, Mode::Encounter);
    assert_eq!(state.encounters, 0);
    assert!(state.last_encounter.is_empty());
    assert_eq!(state.mon_stats.get("eevee"), None);
}

#[test]
fn walk_takes_the_longest_observation() {
    let mut state = walking();
    let frames = vec![names(&[]), names(&["eevee"]), names(&["eevee", "eevee"])];
    assert_eq!(pick_longest(&frames), Some(2));
    assert_eq!(encounter_process(&mut state, &frames), Ok(()));
    assert_eq!(state.mode, Mode::Encounter);
    assert_eq!(state.encounters, 2);
    assert_eq!(state.mon_stats.get("eevee"), Some(2));
    assert_eq!(state.last_encounter, names(&["eevee", "eevee"]));
}

#[test]
fn walk_without_names_changes_nothing() {
    let mut state = walking();
    let frames = vec![names(&[]), names(&[]), names(&[])];
    assert_eq!(pick_longest(&frames), None);
    assert_eq!(encounter_process(&mut state, &frames), Ok(()));
    assert_eq!(state.mode, Mode::Walk);
    assert_eq!(state.encounters, 0);
}

#[test]
fn among_equally_long_observations_the_latest_wins() {
    let mut state = walking();
    let frames = vec![names(&["abra", "kadabra"]), names(&["mew"]), names(&["onix", "zubat"])];
    assert_eq!(pick_longest(&frames), Some(2));
    assert_eq!(encounter_process(&mut state, &frames), Ok(()));
    assert_eq!(state.last_encounter, names(&["onix", "zubat"]));
    assert_eq!(state.mon_stats.get("onix"), Some(1));
    assert_eq!(state.mon_stats.get("abra"), None);
    assert_eq!(state.encounters, 2);
}

#[test]
fn pause_is_sticky() {
    let mut state = walking();
    state.mode = Mode::Pause;
    state.encounters = 3;
    assert_eq!(plan_cycle(Mode::Pause).frames, 0);
    let frames = vec![names(&["eevee"])];
    assert_eq!(encounter_process(&mut state, &frames), Ok(()));
    assert_eq!(state.mode, Mode::Pause);
    assert_eq!(state.encounters, 3);
    assert_eq!(state.mon_stats.len(), 0);
}

#[test]
fn init_is_sticky() {
    let mut state = EncounterState::default();
    assert_eq!(plan_cycle(Mode::Init).frames, 0);
    assert_eq!(plan_cycle(Mode::Init).sleep_millis, 0);
    let frames = vec![names(&["eevee"])];
    assert_eq!(encounter_process(&mut state, &frames), Ok(()));
    assert_eq!(state.mode, Mode::Init);
    assert_eq!(state.encounters, 0);
}

#[test]
fn every_cycle_is_persisted() {
    for mode in [Mode::Init, Mode::Pause, Mode::Walk, Mode::Encounter] {
        assert!(plan_cycle(mode).persist);
    }
}

#[test]
fn overflow_of_a_species_count_is_refused_and_changes_nothing() {
    let mut state = walking();
    state.encounters = 5;
    state.mon_stats =
        MonStats::from_entries(vec![("mew".to_string(), 2), ("eevee".to_string(), u32::MAX)])
            .unwrap();
    let frames = vec![names(&["mew", "eevee", "abra"]), names(&[]), names(&[])];
    assert_eq!(encounter_process(&mut state, &frames), Err(EncounterError::CounterOverflow));
    assert_eq!(state.mode, Mode::Walk);
    assert_eq!(state.encounters, 5);
    assert!(state.last_encounter.is_empty());
    assert_eq!(state.mon_stats.get("mew"), Some(2));
    assert_eq!(state.mon_stats.get("eevee"), Some(u32::MAX));
    assert_eq!(state.mon_stats.get("abra"), None);
}

#[test]
fn sampling_phases_take_three_frames_and_a_pause() {
    assert_eq!(plan_cycle(Mode::Walk).frames, 3);
    assert_eq!(plan_cycle(Mode::Walk).sleep_millis, 400);
    assert_eq!(plan_cycle(Mode::Encounter).frames, 3);
    assert_eq!(plan_cycle(Mode::Encounter).sleep_millis, 400);
}

#[test]
fn encounters_never_decrease_over_cycles() {
    let mut state = walking();
    let cycles = vec![
        vec![names(&["eevee"]), names(&[]), names(&[])],
        vec![names(&[]), names(&[]), names(&[])],
        vec![names(&["mew", "abra"]), names(&["mew"]), names(&[])],
        vec![names(&["mew"]), names(&[]), names(&[])],
        vec![names(&[]), names(&[]), names(&[])],
        vec![names(&[]), names(&["abra", "abra", "onix"]), names(&[])],
    ];
    let mut seen = vec![];
    for frames in &cycles {
        let before = state.encounters;
        assert_eq!(encounter_process(&mut state, frames), Ok(()));
        assert!(state.encounters >= before);
        seen.push(state.encounters);
    }
    assert_eq!(seen, vec![1, 1, 3, 3, 3, 6]);
    assert_eq!(state.mon_stats.get("eevee"), Some(1));
    assert_eq!(state.mon_stats.get("mew"), Some(1));
    assert_eq!(state.mon_stats.get("abra"), Some(3));
    assert_eq!(state.mon_stats.get("onix"), Some(1));
    assert_eq!(state.mon_stats.len(), 4);
}

#[test]
fn overflow_of_encounters_is_refused_and_changes_nothing() {
    let mut state = walking();
    state.encounters = u32::MAX - 1;
    let frames = vec![names(&["eevee", "eevee"])];
    assert_eq!(encounter_process(&mut state, &frames), Err(EncounterError::CounterOverflow));
    assert_eq!(state.mode, Mode::Walk);
    assert_eq!(state.encounters, u32::MAX - 1);
    assert!(state.last_encounter.is_empty());
    assert_eq!(state.mon_stats.get("eevee"), None);
    let one = vec![names(&["eevee"])];
    assert_eq!(encounter_process(&mut state, &one), Ok(()));
    assert_eq!(state.encounters, u32::MAX);
}
