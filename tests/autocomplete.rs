use chester::fuzzy::{contains_text, filter_folded, fuzzy_filter, track_choices, TrackRow};
use chester::order::{sort_texts, text_le};

fn strings(items: &[&str]) -> Vec<String> {
    items.iter().map(|s| s.to_string()).collect()
}

#[test]
fn fuzzy_scenario_zel() {
    let candidates = strings(&["Zelda Theme", "Gerudo Valley", "zelda remix"]);
    assert_eq!(fuzzy_filter("zel", &candidates, 25), strings(&["Zelda Theme", "zelda remix"]));
}

#[test]
fn fuzzy_ignores_case_of_the_input() {
    let candidates = strings(&["Zelda Theme", "Gerudo Valley", "zelda remix"]);
    assert_eq!(fuzzy_filter("ZEL", &candidates, 25), strings(&["Zelda Theme", "zelda remix"]));
    assert_eq!(fuzzy_filter("VALLEY", &candidates, 25), strings(&["Gerudo Valley"]));
}

#[test]
fn fuzzy_empty_input_accepts_all_once() {
    let candidates = strings(&["b", "a", "b", "c"]);
    assert_eq!(fuzzy_filter("", &candidates, 25), strings(&["a", "b", "c"]));
}

#[test]
fn fuzzy_stops_at_the_cap() {
    let candidates: Vec<String> = (0..30).map(|i| format!("track {:02}", 29 - i)).collect();
    let r = fuzzy_filter("track", &candidates, 25);
    assert_eq!(r.len(), 25);
    assert_eq!(r[0], "track 05");
    assert_eq!(r[24], "track 29");
}

#[test]
fn fuzzy_no_candidates() {
    assert!(fuzzy_filter("x", &Vec::new(), 25).is_empty());
    assert!(fuzzy_filter("x", &strings(&["abc"]), 25).is_empty());
}

#[test]
fn fuzzy_trims_long_candidates() {
    let long = "y".repeat(150);
    let r = fuzzy_filter("", &vec![long], 25);
    assert_eq!(r, vec![format!("{}\u{2026}", "y".repeat(97))]);
}

#[test]
fn filter_on_folded_candidates() {
    let pairs = vec![
        ("Zelda Theme".to_string(), "zelda theme".to_string()),
        ("Gerudo Valley".to_string(), "gerudo valley".to_string()),
        ("zelda remix".to_string(), "zelda remix".to_string()),
        ("Zelda Theme".to_string(), "zelda theme".to_string()),
    ];
    assert_eq!(filter_folded("zel", &pairs, 25), strings(&["Zelda Theme", "zelda remix"]));
    assert_eq!(filter_folded("zel", &pairs, 1), strings(&["Zelda Theme"]));
    assert_eq!(filter_folded("", &pairs, 0), Vec::<String>::new());
}

#[test]
fn substring_search() {
    assert!(contains_text("gerudo valley", "do va"));
    assert!(contains_text("abc", ""));
    assert!(!contains_text("abc", "abcd"));
    assert!(!contains_text("abc", "ac"));
    assert!(contains_text("caf\u{e9} au lait", "\u{e9} a"));
}

#[test]
fn texts_sort_by_code_point() {
    assert!(text_le("B", "a"));
    assert!(text_le("ab", "abc"));
    assert!(!text_le("b", "a"));
    assert_eq!(sort_texts(strings(&["b", "a", "B", "ab"])), strings(&["B", "a", "ab", "b"]));
}

#[test]
fn track_choices_are_labelled_and_sorted() {
    let rows = vec![
        TrackRow {
            id: "id1".to_string(),
            title: "Zeta".to_string(),
            artist: "A".to_string(),
            origin: "O".to_string(),
            tags: None,
        },
        TrackRow {
            id: "id2".to_string(),
            title: "Alpha".to_string(),
            artist: "B".to_string(),
            origin: "P".to_string(),
            tags: Some("t1, t2".to_string()),
        },
    ];
    let choices = track_choices(rows);
    assert_eq!(
        choices,
        vec![
            ("Alpha | B | P | t1, t2".to_string(), "id2".to_string()),
            ("Zeta | A | O | No tags".to_string(), "id1".to_string()),
        ]
    );
}

#[test]
fn track_choice_labels_fit() {
    let rows = vec![TrackRow {
        id: "id".to_string(),
        title: "T".repeat(90),
        artist: "Some Artist".to_string(),
        origin: "Some Origin".to_string(),
        tags: Some("a, b, c".to_string()),
    }];
    let choices = track_choices(rows);
    assert!(choices[0].0.len() <= 100);
    assert!(choices[0].0.contains('\u{2026}'));
}
