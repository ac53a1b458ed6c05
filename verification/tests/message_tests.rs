use watchlist::message::{render_listing, split_message, MAX_MESSAGE_LENGTH};

fn names(v: &[&str]) -> Vec<String> {
    v.iter().map(|s| s.to_string()).collect()
}

fn numbered_lines(count: usize) -> String {
    let mut text = String::new();
    for i in 0..count {
        text.push_str(&format!("- entry number {:04}\n", i));
    }
    text
}

#[test]
fn the_limit_is_four_thousand() {
    assert_eq!(MAX_MESSAGE_LENGTH, 4000);
}

#[test]
fn a_long_text_goes_out_in_several_messages() {
    let text = numbered_lines(250);
    assert_eq!(text.chars().count(), 5000);
    let messages = split_message(&text, 4000);
    assert!(messages.len() >= 2);
    assert_eq!(messages.concat(), text);
    assert_eq!(messages.len(), 2);
    assert_eq!(messages[0].chars().count(), 4000);
    assert_eq!(messages[1].chars().count(), 1000);
    for m in &messages {
        assert!(m.chars().count() <= 4000);
        assert!(m.ends_with('\n'));
    }
}

#[test]
fn a_short_text_goes_out_in_one_message() {
    assert_eq!(split_message("a\nb\nc\n", 4000), names(&["a\nb\nc\n"]));
    assert_eq!(split_message("no line feed", 4000), names(&["no line feed"]));
}

#[test]
fn the_empty_text_gives_no_message() {
    assert_eq!(split_message("", 4000), Vec::<String>::new());
    assert_eq!(split_message("", 0), Vec::<String>::new());
}

#[test]
fn messages_break_at_line_ends_only() {
    let messages = split_message("aaa\nbbb\nccc\nddd\n", 9);
    assert_eq!(messages, names(&["aaa\nbbb\n", "ccc\nddd\n"]));
    let messages = split_message("aaa\nbbb\nccc\nddd\n", 8);
    assert_eq!(messages, names(&["aaa\nbbb\n", "ccc\nddd\n"]));
    let messages = split_message("aaa\nbbb\nccc\nddd\n", 7);
    assert_eq!(messages, names(&["aaa\n", "bbb\n", "ccc\n", "ddd\n"]));
}

#[test]
fn a_message_that_fits_exactly_is_not_split() {
    assert_eq!(split_message("ab\ncd\n", 6), names(&["ab\ncd\n"]));
    assert_eq!(split_message("ab\ncd\n", 5), names(&["ab\n", "cd\n"]));
}

#[test]
fn a_line_longer_than_the_limit_goes_out_alone() {
    let messages = split_message("a\nthis line is long\nb\nc\n", 5);
    assert_eq!(messages, names(&["a\n", "this line is long\n", "b\nc\n"]));
    assert_eq!(split_message("one long line without end", 4), names(&["one long line without end"]));
}

#[test]
fn every_line_alone_under_the_limit_zero() {
    assert_eq!(split_message("a\n\nb", 0), names(&["a\n", "\n", "b"]));
}

#[test]
fn the_last_line_needs_no_line_feed() {
    let messages = split_message("aaa\nbbb\nccc", 8);
    assert_eq!(messages, names(&["aaa\nbbb\n", "ccc"]));
    assert_eq!(messages.concat(), "aaa\nbbb\nccc");
}

#[test]
fn the_limit_counts_characters() {
    let messages = split_message("çığ\nöğü\nşşş\n", 8);
    assert_eq!(messages, names(&["çığ\nöğü\n", "şşş\n"]));
}

#[test]
fn blank_lines_and_carriage_returns_are_kept() {
    let text = "a\r\n\r\nb\r\n\n\nc";
    for limit in 0..12 {
        assert_eq!(split_message(text, limit).concat(), text);
    }
}

#[test]
fn render_listing_writes_title_and_dashes() {
    let text = render_listing("All films:", &names(&["Alien (1979)", "Heat (1995)"]));
    assert_eq!(text, "All films:\n- Alien (1979)\n- Heat (1995)\n");
    assert_eq!(render_listing("Empty", &Vec::new()), "Empty\n");
}

#[test]
fn a_long_listing_is_split_and_put_together_again() {
    let mut entries = Vec::new();
    for i in 0..400 {
        entries.push(format!("Film number {} (19{:02})", i, i % 100));
    }
    let text = render_listing("🎬 Tüm Filmler:", &entries);
    let messages = split_message(&text, MAX_MESSAGE_LENGTH);
    assert!(messages.len() >= 2);
    assert_eq!(messages.concat(), text);
    for m in &messages {
        assert!(m.chars().count() <= MAX_MESSAGE_LENGTH);
        assert!(m.ends_with('\n'));
    }
    assert!(messages[0].starts_with("🎬 Tüm Filmler:\n- Film number 0 (1900)\n"));
}
