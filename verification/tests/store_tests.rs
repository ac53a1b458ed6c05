use watchlist::entries::EntrySet;
use watchlist::store::{load, save};

fn names(v: &[&str]) -> Vec<String> {
    v.iter().map(|s| s.to_string()).collect()
}

fn set_of(v: &[&str]) -> EntrySet {
    EntrySet::from_entries(names(v))
}

#[test]
fn load_of_a_missing_file_is_empty() {
    let set = load(None);
    assert!(set.is_empty());
    assert_eq!(set.len(), 0);
    assert_eq!(set.entries(), &Vec::<String>::new());
}

#[test]
fn load_of_an_empty_file_is_empty() {
    assert!(load(Some("")).is_empty());
    assert!(load(Some("\n\n  \n\t\n")).is_empty());
}

#[test]
fn load_trims_lines_and_drops_blank_ones() {
    let set = load(Some("  Inception (2010)  \n\n\tHeat (1995)\n   \nAlien (1979)"));
    assert_eq!(set.entries(), &names(&["Inception (2010)", "Heat (1995)", "Alien (1979)"]));
}

#[test]
fn load_keeps_each_entry_once() {
    let set = load(Some("b\na\nb\n a \nc\na\n"));
    assert_eq!(set.entries(), &names(&["b", "a", "c"]));
    assert_eq!(set.len(), 3);
}

#[test]
fn load_tells_entries_apart_by_case() {
    let set = load(Some("Heat\nheat\nHEAT\n"));
    assert_eq!(set.len(), 3);
    assert!(set.contains("Heat"));
    assert!(set.contains("heat"));
    assert!(!set.contains("hEAT"));
}

#[test]
fn load_reads_lines_that_end_in_carriage_return_and_line_feed() {
    let set = load(Some("Heat (1995)\r\nAlien (1979)\r\n"));
    assert_eq!(set.entries(), &names(&["Heat (1995)", "Alien (1979)"]));
}

#[test]
fn load_reads_a_last_line_without_line_feed() {
    let set = load(Some("a\nb"));
    assert_eq!(set.entries(), &names(&["a", "b"]));
}

#[test]
fn save_writes_sorted_lines_with_line_feeds() {
    let text = save(&set_of(&["Heat (1995)", "Alien (1979)", "Inception (2010)"]));
    assert_eq!(text, "Alien (1979)\nHeat (1995)\nInception (2010)\n");
}

#[test]
fn save_of_the_empty_set_is_empty() {
    assert_eq!(save(&EntrySet::new()), "");
}

#[test]
fn save_orders_by_code_point() {
    let text = save(&set_of(&["b", "a", "B", "çay", "zoo", "10", "2", "A"]));
    let mut expected = names(&["b", "a", "B", "çay", "zoo", "10", "2", "A"]);
    expected.sort();
    let mut joined = String::new();
    for e in &expected {
        joined.push_str(e);
        joined.push('\n');
    }
    assert_eq!(text, joined);
    assert_eq!(text, "10\n2\nA\nB\na\nb\nzoo\nçay\n");
}

#[test]
fn add_gives_the_new_contents_for_a_new_entry() {
    let written = watchlist::store::add(Some("Heat (1995)\nAlien (1979)\n"), "Blade Runner (1982)");
    assert_eq!(
        written,
        Some("Alien (1979)\nBlade Runner (1982)\nHeat (1995)\n".to_string())
    );
}

#[test]
fn add_gives_nothing_for_an_entry_that_is_there() {
    assert_eq!(watchlist::store::add(Some("Heat (1995)\nAlien (1979)\n"), "Heat (1995)"), None);
    assert_eq!(watchlist::store::add(Some("  Heat (1995)  \n"), "Heat (1995)"), None);
}

#[test]
fn add_to_a_missing_file_starts_it() {
    assert_eq!(watchlist::store::add(None, "Heat (1995)"), Some("Heat (1995)\n".to_string()));
}

#[test]
fn add_tidies_what_the_file_held() {
    let written = watchlist::store::add(Some("b\n\n  a \nb\n"), "c");
    assert_eq!(written, Some("a\nb\nc\n".to_string()));
}

#[test]
fn add_twice_gives_contents_then_nothing() {
    let first = watchlist::store::add(Some("b\n"), "a");
    assert_eq!(first, Some("a\nb\n".to_string()));
    let contents = first.unwrap();
    let second = watchlist::store::add(Some(&contents), "a");
    assert_eq!(second, None);
    assert_eq!(load(Some(&contents)).entries(), &names(&["a", "b"]));
}

#[test]
fn a_file_built_by_add_holds_no_line_twice() {
    let order = ["m", "c", "m", "a", "z", "c", "a", "a", "k", "z", "m"];
    let mut contents: Option<String> = None;
    for e in order {
        if let Some(text) = watchlist::store::add(contents.as_deref(), e) {
            contents = Some(text);
        }
        let text = contents.clone().unwrap();
        let lines: Vec<&str> = text.lines().collect();
        let mut unique = lines.clone();
        unique.dedup();
        assert_eq!(lines, unique);
        let mut sorted = lines.clone();
        sorted.sort();
        assert_eq!(lines, sorted);
    }
    assert_eq!(contents, Some("a\nc\nk\nm\nz\n".to_string()));
}

#[test]
fn what_was_written_reads_back_in_order() {
    let text = save(&set_of(&["delta", "alpha", "charlie", "bravo"]));
    let back = load(Some(&text));
    assert_eq!(back.entries(), &names(&["alpha", "bravo", "charlie", "delta"]));
    assert_eq!(save(&back), text);
}

#[test]
fn an_entry_with_a_line_feed_is_read_back_as_two() {
    let written = watchlist::store::add(Some("a\n"), "b\na").unwrap();
    assert_eq!(written, "a\nb\na\n");
    assert_eq!(load(Some(&written)).entries(), &names(&["a", "b"]));
}

#[test]
fn the_empty_entry_is_added_every_time() {
    let first = watchlist::store::add(Some("a\n"), "").unwrap();
    assert_eq!(first, "\na\n");
    assert!(watchlist::store::add(Some(&first), "").is_some());
}
