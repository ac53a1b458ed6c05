use watchlist::entries::{sorted, EntrySet};

fn names(v: &[&str]) -> Vec<String> {
    v.iter().map(|s| s.to_string()).collect()
}

#[test]
fn a_new_set_is_empty() {
    let set = EntrySet::new();
    assert!(set.is_empty());
    assert_eq!(set.len(), 0);
    assert!(!set.contains("a"));
}

#[test]
fn insert_tells_whether_the_set_has_grown() {
    let mut set = EntrySet::new();
    assert!(set.insert("Heat".to_string()));
    assert!(!set.insert("Heat".to_string()));
    assert!(set.insert("heat".to_string()));
    assert_eq!(set.len(), 2);
    assert_eq!(set.entries(), &names(&["Heat", "heat"]));
}

#[test]
fn contains_is_letter_for_letter() {
    let set = EntrySet::from_entries(names(&["Inception (2010)"]));
    assert!(set.contains("Inception (2010)"));
    assert!(!set.contains("inception (2010)"));
    assert!(!set.contains("Inception"));
    assert!(!set.contains(""));
}

#[test]
fn from_entries_keeps_the_first_of_each() {
    let set = EntrySet::from_entries(names(&["b", "a", "b", "c", "a"]));
    assert_eq!(set.entries(), &names(&["b", "a", "c"]));
}

#[test]
fn to_sorted_is_in_dictionary_order() {
    let set = EntrySet::from_entries(names(&["pear", "Apple", "apple", "fig", "Fig", "app"]));
    assert_eq!(set.to_sorted(), names(&["Apple", "Fig", "app", "apple", "fig", "pear"]));
    assert_eq!(set.entries(), &names(&["pear", "Apple", "apple", "fig", "Fig", "app"]));
}

#[test]
fn sorted_agrees_with_std_sort() {
    let v = names(&["b", "a", "", "B", "çay", "zoo", "10", "2", "a", "A", "ab", "🎬", "İ", "ı"]);
    let mut expected = v.clone();
    expected.sort();
    assert_eq!(sorted(&v), expected);
}

#[test]
fn sorted_keeps_repeated_entries() {
    assert_eq!(sorted(&names(&["b", "a", "b"])), names(&["a", "b", "b"]));
    assert_eq!(sorted(&Vec::new()), Vec::<String>::new());
}

#[test]
fn without_keeps_the_order_of_arrival() {
    let all = EntrySet::from_entries(names(&["d", "a", "c", "b"]));
    let seen = EntrySet::from_entries(names(&["c", "x", "d"]));
    assert_eq!(all.without(&seen), names(&["a", "b"]));
    assert_eq!(all.without(&EntrySet::new()), names(&["d", "a", "c", "b"]));
    assert_eq!(all.without(&all), Vec::<String>::new());
}
