use regex::Regex;
use ts_filter::chars::to_chars;
use ts_filter::scan::{digit, find_timestamps, Match};

fn found(text: &str) -> Vec<Match> {
    find_timestamps(&to_chars(text))
}

fn spans(text: &str) -> Vec<(usize, usize)> {
    found(text).iter().map(|m| (m.start, m.end)).collect()
}

#[test]
fn to_chars_keeps_every_character_in_order() {
    assert_eq!(to_chars(""), Vec::<char>::new());
    assert_eq!(to_chars("a1é"), vec!['a', '1', 'é']);
}

#[test]
fn digit_is_true_of_ascii_digits_only() {
    for c in "0123456789".chars() {
        assert!(digit(c));
    }
    for c in "/:aZ ٣".chars() {
        assert!(!digit(c));
    }
}

#[test]
fn finds_a_timestamp_in_seconds() {
    assert_eq!(
        found("foo 1646764906 bar"),
        vec![Match { start: 4, end: 14, seconds: 1646764906 }]
    );
}

#[test]
fn finds_a_timestamp_in_milliseconds_and_cuts_the_millis_off() {
    assert_eq!(
        found("foo 1646764906847 bar"),
        vec![Match { start: 4, end: 17, seconds: 1646764906 }]
    );
    assert_eq!(
        found("1646764906999"),
        vec![Match { start: 0, end: 13, seconds: 1646764906 }]
    );
}

#[test]
fn smallest_and_largest_seconds() {
    assert_eq!(found("1000000000")[0].seconds, 1_000_000_000);
    assert_eq!(found("1999999999")[0].seconds, 1_999_999_999);
    assert_eq!(found("1999999999999")[0].seconds, 1_999_999_999);
}

#[test]
fn runs_of_other_lengths_are_no_timestamps() {
    assert_eq!(found("x 12345 y"), vec![]);
    assert_eq!(found("164676490"), vec![]);
    assert_eq!(found("16467649061"), vec![]);
    assert_eq!(found("164676490612"), vec![]);
    assert_eq!(found("16467649068471"), vec![]);
    assert_eq!(found("16467649068471646764906"), vec![]);
}

#[test]
fn runs_that_do_not_start_with_one_are_no_timestamps() {
    assert_eq!(found("2646764906"), vec![]);
    assert_eq!(found("0646764906"), vec![]);
    assert_eq!(found("9646764906847"), vec![]);
}

#[test]
fn text_without_digits_has_no_timestamps() {
    assert_eq!(found(""), vec![]);
    assert_eq!(found("no digits here"), vec![]);
}

#[test]
fn a_timestamp_may_touch_the_ends_and_any_non_digit() {
    assert_eq!(spans("1646764906"), vec![(0, 10)]);
    assert_eq!(spans("ts=1646764906"), vec![(3, 13)]);
    assert_eq!(spans("1646764906ms"), vec![(0, 10)]);
    assert_eq!(spans("é1646764906ß"), vec![(1, 11)]);
    assert_eq!(spans("_1646764906_"), vec![(1, 11)]);
    assert_eq!(spans("-1646764906.5"), vec![(1, 11)]);
}

#[test]
fn digits_of_other_scripts_are_not_digits() {
    assert_eq!(found("١٦٤٦٧٦٤٩٠٦"), vec![]);
    assert_eq!(spans("٣1646764906٣"), vec![(1, 11)]);
}

#[test]
fn finds_every_timestamp_from_left_to_right() {
    let text = "1646764906,1646764906847 12345 1000000000\n2646764906 1999999999";
    assert_eq!(
        found(text),
        vec![
            Match { start: 0, end: 10, seconds: 1646764906 },
            Match { start: 11, end: 24, seconds: 1646764906 },
            Match { start: 31, end: 41, seconds: 1000000000 },
            Match { start: 53, end: 63, seconds: 1999999999 },
        ]
    );
}

#[test]
fn indices_count_characters_not_bytes() {
    assert_eq!(spans("ééé 1646764906"), vec![(4, 14)]);
}

#[test]
fn agrees_with_the_pattern_where_words_are_set_apart() {
    let pattern = Regex::new(r"\b(?P<ts>1\d{9})(\d\d\d)?\b").unwrap();
    let texts = [
        "foo 1646764906847 bar",
        "foo 1646764906 bar",
        "1646764906",
        "a 164676490 b 16467649061 c 164676490612 d 16467649068471 e",
        "[1646764906] (1646764906847); 2646764906, 1000000000.",
        "t=1999999999999 u=1999999999 v=12345",
        "1646764906 1646764906 1646764906",
        "",
        "nothing",
    ];
    for text in texts {
        let by_pattern: Vec<(usize, usize)> =
            pattern.find_iter(text).map(|m| (m.start(), m.end())).collect();
        assert_eq!(spans(text), by_pattern, "{}", text);
    }
}
