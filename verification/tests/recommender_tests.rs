use watchlist::entries::EntrySet;
use watchlist::recommender::recommend;

fn names(v: &[&str]) -> Vec<String> {
    v.iter().map(|s| s.to_string()).collect()
}

fn set_of(v: &[&str]) -> EntrySet {
    EntrySet::from_entries(names(v))
}

#[test]
fn nothing_is_left_when_all_is_watched() {
    assert_eq!(recommend(&set_of(&["A", "B"]), &set_of(&["A", "B"])), None);
}

#[test]
fn nothing_is_recommended_from_an_empty_catalog() {
    assert_eq!(recommend(&EntrySet::new(), &EntrySet::new()), None);
    assert_eq!(recommend(&EntrySet::new(), &set_of(&["A"])), None);
}

#[test]
fn the_only_unwatched_entry_is_recommended() {
    let pick = recommend(&set_of(&["A", "B", "C"]), &set_of(&["C", "A"]));
    assert_eq!(pick, Some("B".to_string()));
}

#[test]
fn a_watched_entry_is_never_recommended() {
    let catalog = set_of(&["A", "B", "C", "D", "E"]);
    let watched = set_of(&["B", "D", "stale"]);
    for _ in 0..500 {
        let pick = recommend(&catalog, &watched).unwrap();
        assert!(catalog.contains(&pick));
        assert!(!watched.contains(&pick));
    }
}

#[test]
fn every_unwatched_entry_comes_up() {
    let catalog = set_of(&["A", "B", "C", "D"]);
    let watched = set_of(&["B"]);
    let mut seen = EntrySet::new();
    for _ in 0..2000 {
        seen.insert(recommend(&catalog, &watched).unwrap());
    }
    assert_eq!(seen.to_sorted(), names(&["A", "C", "D"]));
}

#[test]
fn entries_that_differ_by_case_are_told_apart() {
    let pick = recommend(&set_of(&["Heat", "heat"]), &set_of(&["Heat"]));
    assert_eq!(pick, Some("heat".to_string()));
}
