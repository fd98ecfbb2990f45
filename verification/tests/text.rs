use stable_matching::models::{RankingError, Rankings};
use stable_matching::text::{chars_of, parse_preferences, split, text_of, trim};

fn name(text: &str) -> String {
    text.to_string()
}

#[test]
fn a_line_is_a_name_and_its_preferences() {
    let rankings = Rankings::from_str("alice,team1,team2").unwrap();
    let entries = rankings.get_map();
    assert_eq!(entries.len(), 1);
    assert_eq!(entries[0].0, name("alice"));
    assert_eq!(entries[0].1, vec![name("team1"), name("team2")]);
}

#[test]
fn white_space_around_a_preference_does_not_count() {
    let rankings = Rankings::from_str("alice, team1 ,\tteam2\r\nbob ,team 2\n").unwrap();
    let entries = rankings.get_map();
    assert_eq!(entries.len(), 2);
    assert_eq!(entries[0].0, name("alice"));
    assert_eq!(entries[0].1, vec![name("team1"), name("team2")]);
    assert_eq!(entries[1].0, name("bob "));
    assert_eq!(entries[1].1, vec![name("team 2")]);
}

#[test]
fn a_line_without_preferences_is_an_error() {
    assert_eq!(
        Rankings::from_str("alice").err(),
        Some(RankingError::MalformedLine(name("alice")))
    );
    assert_eq!(
        Rankings::from_str("bob,team1\nalice\ncarol").err(),
        Some(RankingError::MalformedLine(name("alice")))
    );
    assert_eq!(
        Rankings::from_str("alice,").err(),
        Some(RankingError::MalformedLine(name("alice,")))
    );
}

#[test]
fn an_empty_line_between_lines_is_an_error() {
    assert_eq!(
        Rankings::from_str("alice,team1\n\nbob,team1").err(),
        Some(RankingError::MalformedLine(name("")))
    );
}

#[test]
fn a_name_on_two_lines_is_an_error() {
    assert_eq!(
        Rankings::from_str("alice,team1\nbob,team1\nalice,team2").err(),
        Some(RankingError::DuplicateKey(name("alice")))
    );
}

#[test]
fn empty_text_is_an_empty_store() {
    let rankings = Rankings::from_str("").unwrap();
    assert_eq!(rankings.get_keys(), Vec::<String>::new());
}

#[test]
fn the_name_ends_at_the_first_comma_that_something_precedes() {
    let rankings = Rankings::from_str(",a,b").unwrap();
    let entries = rankings.get_map();
    assert_eq!(entries[0].0, name(",a"));
    assert_eq!(entries[0].1, vec![name("b")]);
}

#[test]
fn from_captures_cuts_and_trims_the_listed_preferences() {
    let pairs = vec![
        (name("alice"), name(" team1 , team2,,team3 ")),
        (name("bob"), name("team1")),
    ];
    let rankings = Rankings::from_captures(pairs).unwrap();
    let entries = rankings.get_map();
    assert_eq!(
        entries[0].1,
        vec![name("team1"), name("team2"), name(""), name("team3")]
    );
    assert_eq!(entries[1].1, vec![name("team1")]);
}

#[test]
fn from_captures_refuses_a_repeated_name() {
    let pairs = vec![
        (name("alice"), name("team1")),
        (name("alice"), name("team2")),
    ];
    assert_eq!(
        Rankings::from_captures(pairs).err(),
        Some(RankingError::DuplicateKey(name("alice")))
    );
}

#[test]
fn split_gives_one_piece_more_than_separators() {
    let chars = chars_of("a,,bc,");
    let pieces = split(&chars, ',');
    assert_eq!(
        pieces,
        vec![vec!['a'], vec![], vec!['b', 'c'], vec![]]
    );
    assert_eq!(split(&chars_of(""), ','), vec![Vec::<char>::new()]);
}

#[test]
fn trim_cuts_unicode_white_space_at_both_ends_only() {
    assert_eq!(trim(&chars_of(" \t a b \u{a0}\n")), name("a b"));
    assert_eq!(trim(&chars_of("   ")), name(""));
    assert_eq!(trim(&chars_of("")), name(""));
    assert_eq!(trim(&chars_of("x")), name("x"));
    assert_eq!(trim(&chars_of("\n \u{8d8a} \u{a0}")), name("\u{8d8a}"));
}

#[test]
fn text_of_copies_a_range_of_characters() {
    let chars = chars_of("h\u{e9}llo");
    assert_eq!(chars.len(), 5);
    assert_eq!(text_of(&chars, 1, 4), name("\u{e9}ll"));
    assert_eq!(text_of(&chars, 2, 2), name(""));
}

#[test]
fn preferences_are_the_trimmed_tokens() {
    assert_eq!(
        parse_preferences(" x ,y,  z"),
        vec![name("x"), name("y"), name("z")]
    );
}

#[test]
fn reading_errors_say_what_failed() {
    assert_eq!(
        RankingError::DuplicateKey(name("alice")).message(),
        "Data input error: Duplicate key: alice"
    );
    assert_eq!(
        RankingError::MalformedLine(name("alice")).message(),
        "Data input error: Malformed line: alice"
    );
    assert_eq!(
        RankingError::Pattern.message(),
        "Data input error: Line pattern refused"
    );
}

#[test]
fn a_carriage_return_before_the_line_feed_is_trimmed_off_the_last_preference() {
    let rankings = Rankings::from_str("alice,team1,team2\r\nbob,team2,team1\r\n").unwrap();
    let entries = rankings.get_map();
    assert_eq!(entries[0].1, vec![name("team1"), name("team2")]);
    assert_eq!(entries[1].1, vec![name("team2"), name("team1")]);
}
