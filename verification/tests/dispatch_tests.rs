use watchlist::dispatch::{
    add_to_catalog, answer, catalog_file, kind_of, list, mark_watched, uses_catalog, uses_watched,
    watched_file, Command, Kind, Reaction, Reply, Update,
};

fn names(v: &[&str]) -> Vec<String> {
    v.iter().map(|s| s.to_string()).collect()
}

fn quiet(reply: Reply) -> Reaction {
    Reaction { reply, update: Update::Nothing }
}

const FILMS: &str = "Inception (2010)\nBatman Begins\nThe Dark Knight\nHeat (1995)\n";

#[test]
fn files_of_each_kind() {
    assert_eq!(catalog_file(Kind::Film), "filmler.txt");
    assert_eq!(catalog_file(Kind::Series), "diziler.txt");
    assert_eq!(watched_file(Kind::Film), "izlenen_filmler.txt");
    assert_eq!(watched_file(Kind::Series), "izlenen_diziler.txt");
}

#[test]
fn kind_of_each_command() {
    assert_eq!(kind_of(&Command::Help), None);
    assert_eq!(kind_of(&Command::Hello), None);
    assert_eq!(kind_of(&Command::Recommend(Kind::Film)), Some(Kind::Film));
    assert_eq!(kind_of(&Command::MarkWatched(Kind::Series, "x".to_string())), Some(Kind::Series));
    assert_eq!(kind_of(&Command::AddToCatalog(Kind::Film, "x".to_string())), Some(Kind::Film));
    assert_eq!(kind_of(&Command::ListWatched(Kind::Series)), Some(Kind::Series));
    assert_eq!(kind_of(&Command::ListAll(Kind::Film)), Some(Kind::Film));
    assert_eq!(kind_of(&Command::ListUnwatched(Kind::Series)), Some(Kind::Series));
}

#[test]
fn files_that_each_command_uses() {
    let name = || "x".to_string();
    let commands = [
        (Command::Help, false, false),
        (Command::Hello, false, false),
        (Command::Recommend(Kind::Film), true, true),
        (Command::MarkWatched(Kind::Film, name()), true, true),
        (Command::AddToCatalog(Kind::Series, name()), true, false),
        (Command::ListWatched(Kind::Series), false, true),
        (Command::ListAll(Kind::Film), true, false),
        (Command::ListUnwatched(Kind::Film), true, true),
    ];
    for (command, catalog, watched) in commands {
        assert_eq!(uses_catalog(&command), catalog, "{:?}", command);
        assert_eq!(uses_watched(&command), watched, "{:?}", command);
    }
}

#[test]
fn a_file_that_is_not_used_does_not_matter() {
    let with = answer(&Command::ListWatched(Kind::Film), Some(FILMS), Some("b\na\n"));
    let without = answer(&Command::ListWatched(Kind::Film), None, Some("b\na\n"));
    assert_eq!(with, without);
    let with = answer(&Command::ListAll(Kind::Film), Some(FILMS), Some("b\na\n"));
    let without = answer(&Command::ListAll(Kind::Film), Some(FILMS), None);
    assert_eq!(with, without);
}

#[test]
fn help_and_hello_write_nothing() {
    assert_eq!(answer(&Command::Help, Some(FILMS), None), quiet(Reply::Help));
    assert_eq!(answer(&Command::Hello, None, None), quiet(Reply::Hello));
}

#[test]
fn marking_an_entry_writes_the_watched_list() {
    let r = mark_watched("  HEAT (1995) ", Some(FILMS), Some("Inception (2010)\n"));
    assert_eq!(
        r,
        Reaction {
            reply: Reply::MarkedWatched("Heat (1995)".to_string()),
            update: Update::Watched("Heat (1995)\nInception (2010)\n".to_string()),
        }
    );
}

#[test]
fn marking_starts_the_watched_list_where_there_is_none() {
    let r = mark_watched("batman begins", Some(FILMS), None);
    assert_eq!(
        r,
        Reaction {
            reply: Reply::MarkedWatched("Batman Begins".to_string()),
            update: Update::Watched("Batman Begins\n".to_string()),
        }
    );
}

#[test]
fn marking_a_watched_entry_says_so_and_writes_nothing() {
    let r = mark_watched("heat (1995)", Some(FILMS), Some("Heat (1995)\n"));
    assert_eq!(r, quiet(Reply::AlreadyWatched("Heat (1995)".to_string())));
}

#[test]
fn marking_an_unknown_name_gives_suggestions() {
    let r = mark_watched(" Batman ", Some(FILMS), None);
    assert_eq!(
        r,
        quiet(Reply::NotFound { name: "batman".to_string(), suggestions: names(&["Batman Begins"]) })
    );
    let r = mark_watched("Casablanca", Some(FILMS), None);
    assert_eq!(
        r,
        quiet(Reply::NotFound { name: "casablanca".to_string(), suggestions: Vec::new() })
    );
}

#[test]
fn marking_with_a_missing_catalog_finds_nothing() {
    let r = mark_watched("Heat", None, None);
    assert_eq!(r, quiet(Reply::NotFound { name: "heat".to_string(), suggestions: Vec::new() }));
}

#[test]
fn adding_to_the_catalog_keeps_the_case_and_trims() {
    let r = add_to_catalog("  Blade Runner (1982) ", Some("Heat (1995)\n"));
    assert_eq!(
        r,
        Reaction {
            reply: Reply::Added("Blade Runner (1982)".to_string()),
            update: Update::Catalog("Blade Runner (1982)\nHeat (1995)\n".to_string()),
        }
    );
}

#[test]
fn adding_what_is_there_writes_nothing() {
    let r = add_to_catalog("Heat (1995)", Some("Heat (1995)\n"));
    assert_eq!(r, quiet(Reply::AlreadyPresent("Heat (1995)".to_string())));
}

#[test]
fn adding_tells_entries_apart_by_case() {
    let r = add_to_catalog("heat (1995)", Some("Heat (1995)\n"));
    assert_eq!(
        r,
        Reaction {
            reply: Reply::Added("heat (1995)".to_string()),
            update: Update::Catalog("Heat (1995)\nheat (1995)\n".to_string()),
        }
    );
}

#[test]
fn list_sorts_or_says_that_nothing_is_there() {
    assert_eq!(list(&names(&["b", "a"])), Reply::Listing(names(&["a", "b"])));
    assert_eq!(list(&Vec::new()), Reply::NothingToList);
}

#[test]
fn answer_lists_the_catalog() {
    let r = answer(&Command::ListAll(Kind::Film), Some(FILMS), None);
    assert_eq!(
        r,
        quiet(Reply::Listing(names(&[
            "Batman Begins",
            "Heat (1995)",
            "Inception (2010)",
            "The Dark Knight"
        ])))
    );
    assert_eq!(answer(&Command::ListAll(Kind::Series), None, None), quiet(Reply::NothingToList));
}

#[test]
fn answer_lists_what_was_watched() {
    let r = answer(&Command::ListWatched(Kind::Film), Some(FILMS), Some("b\na\n"));
    assert_eq!(r, quiet(Reply::Listing(names(&["a", "b"]))));
    let r = answer(&Command::ListWatched(Kind::Film), Some(FILMS), None);
    assert_eq!(r, quiet(Reply::NothingToList));
}

#[test]
fn answer_lists_what_was_not_watched() {
    let watched = "The Dark Knight\nInception (2010)\nGone\n";
    let r = answer(&Command::ListUnwatched(Kind::Film), Some(FILMS), Some(watched));
    assert_eq!(r, quiet(Reply::Listing(names(&["Batman Begins", "Heat (1995)"]))));
    let r = answer(&Command::ListUnwatched(Kind::Film), Some("a\n"), Some("a\n"));
    assert_eq!(r, quiet(Reply::NothingToList));
}

#[test]
fn answer_recommends_what_was_not_watched() {
    let watched = "The Dark Knight\nInception (2010)\nHeat (1995)\n";
    let r = answer(&Command::Recommend(Kind::Film), Some(FILMS), Some(watched));
    assert_eq!(r, quiet(Reply::Recommendation("Batman Begins".to_string())));
    for _ in 0..200 {
        let r = answer(&Command::Recommend(Kind::Film), Some(FILMS), Some("Heat (1995)\n"));
        assert_eq!(r.update, Update::Nothing);
        match r.reply {
            Reply::Recommendation(e) => {
                assert!(FILMS.lines().any(|l| l == e));
                assert_ne!(e, "Heat (1995)");
            }
            other => panic!("{:?}", other),
        }
    }
}

#[test]
fn answer_says_when_everything_was_watched() {
    let r = answer(&Command::Recommend(Kind::Series), Some("A\nB\n"), Some("A\nB\n"));
    assert_eq!(r, quiet(Reply::Exhausted));
    let r = answer(&Command::Recommend(Kind::Series), None, None);
    assert_eq!(r, quiet(Reply::Exhausted));
}

#[test]
fn answer_marks_and_adds() {
    let r = answer(&Command::MarkWatched(Kind::Film, "inception (2010)".to_string()), Some(FILMS), None);
    assert_eq!(
        r,
        Reaction {
            reply: Reply::MarkedWatched("Inception (2010)".to_string()),
            update: Update::Watched("Inception (2010)\n".to_string()),
        }
    );
    let r = answer(&Command::AddToCatalog(Kind::Series, " Dark ".to_string()), None, None);
    assert_eq!(
        r,
        Reaction {
            reply: Reply::Added("Dark".to_string()),
            update: Update::Catalog("Dark\n".to_string()),
        }
    );
}
