use encounter::filter::{get_mons, screen_token, CandidateFilter, TextLine};

fn line(text: &str) -> TextLine {
    TextLine { words: text.split(' ').filter(|w| !w.is_empty()).map(|w| w.to_string()).collect() }
}

fn filter() -> CandidateFilter {
    CandidateFilter::new().expect("the noise pattern compiles")
}

#[test]
fn lines_without_the_badge_give_nothing() {
    let lines = vec![line("Pidgey appeared"), line("Level 12 Rattata"), line("lv.3 Zubat")];
    assert_eq!(get_mons(&filter(), &lines), Vec::<String>::new());
    assert_eq!(get_mons(&filter(), &vec![]), Vec::<String>::new());
}

#[test]
fn badge_line_keeps_the_capitalised_name() {
    let lines = vec![line("Lv.12 Pidgey appeared")];
    assert_eq!(get_mons(&filter(), &lines), vec!["pidgey".to_string()]);
}

#[test]
fn alpha_is_always_dropped() {
    let f = filter();
    assert_eq!(f.token("Alpha"), None);
    assert_eq!(f.token("ALPHA"), None);
    assert_eq!(f.token("Alphabet"), None);
    let lines = vec![line("Alpha Rattata Lv.7")];
    assert_eq!(get_mons(&f, &lines), vec!["rattata".to_string()]);
}

#[test]
fn short_words_are_dropped() {
    let f = filter();
    assert_eq!(f.token("Mew"), None);
    assert_eq!(f.token("Abra"), Some("abra".to_string()));
    assert_eq!(f.token(""), None);
}

#[test]
fn words_with_digits_or_white_space_are_dropped() {
    let f = filter();
    assert_eq!(f.token("Pidgey7"), None);
    assert_eq!(f.token("Pid\tgey"), None);
    assert_eq!(f.token("Pid gey"), None);
    assert_eq!(f.token("Pidgey"), Some("pidgey".to_string()));
}

#[test]
fn level_markers_are_dropped() {
    let f = filter();
    assert_eq!(f.token("Lv.12"), None);
    assert_eq!(f.token("Lv.x"), None);
    assert_eq!(f.token("Zubatlv."), None);
    assert_eq!(f.token("Zubatllv."), None);
}

#[test]
fn words_that_start_in_lowercase_are_dropped() {
    let f = filter();
    assert_eq!(f.token("pidgey"), None);
    assert_eq!(f.token("_Pidgey"), None);
}

#[test]
fn duplicates_and_order_are_kept() {
    let lines = vec![
        line("Eevee Lv.5 Eevee Lv.6"),
        line("no badge Here"),
        line("Lv.9 Geodude Graveler"),
    ];
    assert_eq!(
        get_mons(&filter(), &lines),
        vec!["eevee".to_string(), "eevee".to_string(), "geodude".to_string(), "graveler".to_string()]
    );
}

#[test]
fn badge_must_stand_inside_one_word() {
    let lines = vec![line("L v. Pidgey"), line("Lv . Pidgey")];
    assert_eq!(get_mons(&filter(), &lines), Vec::<String>::new());
}

#[test]
fn full_text_joins_words_with_one_space() {
    assert_eq!(line("Lv.12 Pidgey appeared").text(), "Lv.12 Pidgey appeared");
    assert_eq!(line("  Pidgey   appeared ").text(), "Pidgey appeared");
    assert_eq!(TextLine { words: vec![] }.text(), "");
    assert!(line("Pidgey Lv.3").shows_badge());
    assert!(!line("Pidgey LV.3").shows_badge());
}

#[test]
fn screening_follows_what_the_classes_said() {
    assert_eq!(screen_token("pidgey".to_string(), true, false), Some("pidgey".to_string()));
    assert_eq!(screen_token("pidgey".to_string(), false, false), None);
    assert_eq!(screen_token("pidgey".to_string(), true, true), None);
    assert_eq!(screen_token("pid".to_string(), true, false), None);
    assert_eq!(screen_token("alpha".to_string(), true, false), None);
    assert_eq!(screen_token("xllv.y".to_string(), true, false), None);
}

#[test]
fn length_counts_characters() {
    let f = filter();
    assert_eq!(f.token("Éab"), None);
    assert_eq!(f.token("Éabc"), Some("éabc".to_string()));
}
