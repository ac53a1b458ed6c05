use watchlist::entries::EntrySet;
use watchlist::matcher::{candidates_of, classify, find_match, normalized, Candidate, MatchResult};

fn names(v: &[&str]) -> Vec<String> {
    v.iter().map(|s| s.to_string()).collect()
}

fn catalog(v: &[&str]) -> EntrySet {
    EntrySet::from_entries(names(v))
}

fn candidate(entry: &str, folded: &str) -> Candidate {
    Candidate { entry: entry.to_string(), folded: folded.to_string() }
}

#[test]
fn matcher_ignores_case() {
    let found = find_match("INCEPTION (2010)", &catalog(&["Inception (2010)"]));
    assert_eq!(found, MatchResult::ExactMatch("Inception (2010)".to_string()));
}

#[test]
fn matcher_suggests_entries_that_hold_the_name() {
    let found = find_match("batman", &catalog(&["Batman Begins", "The Dark Knight"]));
    assert_eq!(found, MatchResult::Suggestions(names(&["Batman Begins"])));
}

#[test]
fn matcher_trims_the_name() {
    let found = find_match("  \theat (1995) \n", &catalog(&["Alien (1979)", "Heat (1995)"]));
    assert_eq!(found, MatchResult::ExactMatch("Heat (1995)".to_string()));
}

#[test]
fn matcher_finds_nothing() {
    let found = find_match("casablanca", &catalog(&["Batman Begins", "The Dark Knight"]));
    assert_eq!(found, MatchResult::Suggestions(Vec::new()));
    assert_eq!(find_match("anything", &EntrySet::new()), MatchResult::Suggestions(Vec::new()));
}

#[test]
fn matcher_gives_all_suggestions_in_catalog_order() {
    let found = find_match("the", &catalog(&["The Wire", "Heat", "Breathe", "OTHELLO", "Them"]));
    assert_eq!(found, MatchResult::Suggestions(names(&["The Wire", "Breathe", "OTHELLO", "Them"])));
}

#[test]
fn an_exact_match_wins_over_suggestions() {
    let found = find_match("heat", &catalog(&["Heat 2", "Heat", "Dead Heat"]));
    assert_eq!(found, MatchResult::ExactMatch("Heat".to_string()));
}

#[test]
fn the_first_of_several_exact_matches_wins() {
    let found = find_match("heat", &catalog(&["HEAT", "Heat", "heat"]));
    assert_eq!(found, MatchResult::ExactMatch("HEAT".to_string()));
}

#[test]
fn the_empty_name_is_held_by_every_entry() {
    let found = find_match("   ", &catalog(&["Heat", "Alien"]));
    assert_eq!(found, MatchResult::Suggestions(names(&["Heat", "Alien"])));
}

#[test]
fn matcher_folds_letters_beyond_ascii() {
    let found = find_match("ÇILGIN ÖĞRENCİ", &catalog(&["Çılgın Öğrenci", "ÇILGIN ÖĞRENCİ"]));
    assert_eq!(found, MatchResult::ExactMatch("ÇILGIN ÖĞRENCİ".to_string()));
    let found = find_match("ÖĞR", &catalog(&["Çılgın Öğrenci"]));
    assert_eq!(found, MatchResult::Suggestions(names(&["Çılgın Öğrenci"])));
}

#[test]
fn normalized_trims_and_folds() {
    assert_eq!(normalized("  INCEPTION (2010) "), "inception (2010)");
    assert_eq!(normalized("Ünlü"), "ünlü");
    assert_eq!(normalized("\n"), "");
}

#[test]
fn candidates_carry_their_lower_case_form() {
    let candidates = candidates_of(&catalog(&["Batman Begins", "HEAT"]));
    assert_eq!(candidates.len(), 2);
    assert_eq!(candidates[0].entry, "Batman Begins");
    assert_eq!(candidates[0].folded, "batman begins");
    assert_eq!(candidates[1].entry, "HEAT");
    assert_eq!(candidates[1].folded, "heat");
}

#[test]
fn classify_compares_with_the_folded_form_only() {
    let candidates = vec![candidate("Heat", "x"), candidate("Alien", "heat"), candidate("Up", "heat")];
    assert_eq!(classify("heat", &candidates), MatchResult::ExactMatch("Alien".to_string()));
    assert_eq!(classify("Heat", &candidates), MatchResult::Suggestions(Vec::new()));
    assert_eq!(classify("ea", &candidates), MatchResult::Suggestions(names(&["Alien", "Up"])));
    assert_eq!(classify("x", &candidates), MatchResult::ExactMatch("Heat".to_string()));
}

#[test]
fn classify_stops_at_the_exact_match() {
    let candidates = vec![candidate("A", "heat wave"), candidate("B", "heat"), candidate("C", "heat")];
    assert_eq!(classify("heat", &candidates), MatchResult::ExactMatch("B".to_string()));
    assert_eq!(classify("wave", &candidates), MatchResult::Suggestions(names(&["A"])));
    assert_eq!(classify("heat", &Vec::new()), MatchResult::Suggestions(Vec::new()));
}
