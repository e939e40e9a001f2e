use encounter::mode::Mode;
use encounter::stats::MonStats;

fn rows(items: &[(&str, u32)]) -> Vec<(String, u32)> {
    items.iter().map(|(name, count)| (name.to_string(), *count)).collect()
}

#[test]
fn new_counter_is_empty() {
    let stats = MonStats::new();
    assert_eq!(stats.len(), 0);
    assert_eq!(stats.get("eevee"), None);
    assert_eq!(stats.entries(), vec![]);
}

#[test]
fn record_counts_each_sighting() {
    let mut stats = MonStats::new();
    assert!(stats.record("eevee"));
    assert!(stats.record("mew"));
    assert!(stats.record("eevee"));
    assert_eq!(stats.get("eevee"), Some(2));
    assert_eq!(stats.get("mew"), Some(1));
    assert_eq!(stats.get("Eevee"), None);
    assert_eq!(stats.len(), 2);
    assert_eq!(stats.entries(), rows(&[("eevee", 2), ("mew", 1)]));
}

#[test]
fn record_refuses_a_full_count() {
    let mut stats = MonStats::from_entries(rows(&[("eevee", u32::MAX - 1), ("mew", 4)])).unwrap();
    assert!(stats.record("eevee"));
    assert_eq!(stats.get("eevee"), Some(u32::MAX));
    assert!(!stats.record("eevee"));
    assert_eq!(stats.get("eevee"), Some(u32::MAX));
    assert_eq!(stats.get("mew"), Some(4));
    assert!(stats.record("mew"));
    assert_eq!(stats.entries(), rows(&[("eevee", u32::MAX), ("mew", 5)]));
}

#[test]
fn rows_restore_the_counter() {
    let mut stats = MonStats::new();
    for name in ["abra", "mew", "abra", "onix", "abra"] {
        assert!(stats.record(name));
    }
    let restored = MonStats::from_entries(stats.entries()).unwrap();
    assert_eq!(restored.entries(), stats.entries());
    assert_eq!(restored.get("abra"), Some(3));
    assert_eq!(restored.get("mew"), Some(1));
    assert_eq!(restored.get("onix"), Some(1));
    assert_eq!(restored.len(), 3);
    let copy = stats.clone();
    assert_eq!(copy.entries(), stats.entries());
}

#[test]
fn rows_that_name_a_species_twice_are_refused() {
    assert!(MonStats::from_entries(rows(&[("abra", 1), ("mew", 2), ("abra", 3)])).is_none());
    assert!(MonStats::from_entries(rows(&[("abra", 1), ("abra", 1)])).is_none());
    assert!(MonStats::from_entries(rows(&[("abra", 1), ("Abra", 1)])).is_some());
    assert!(MonStats::from_entries(rows(&[])).is_some());
}

#[test]
fn names_of_the_phases_in_the_state_file() {
    let all = [
        (Mode::Init, "Init"),
        (Mode::Encounter, "Encounter"),
        (Mode::Walk, "Walk"),
        (Mode::Pause, "Pause"),
    ];
    for (mode, name) in all {
        assert_eq!(mode.name(), name);
        assert_eq!(Mode::from_name(name), Some(mode));
        assert_eq!(Mode::from_name(&mode.name()), Some(mode));
    }
    assert_eq!(Mode::from_name("walk"), None);
    assert_eq!(Mode::from_name("Init, Press S to start."), None);
    assert_eq!(Mode::from_name(""), None);
    assert_eq!(Mode::from_name("Walk "), None);
}

#[test]
fn labels_of_the_phases() {
    assert_eq!(Mode::Init.to_string(), "Init, Press S to start.");
    assert_eq!(Mode::Encounter.to_string(), "Encounter");
    assert_eq!(Mode::Walk.to_string(), "Walk");
    assert_eq!(Mode::Pause.to_string(), "Pause");
    assert!(Mode::Walk.samples());
    assert!(Mode::Encounter.samples());
    assert!(!Mode::Init.samples());
    assert!(!Mode::Pause.samples());
}
