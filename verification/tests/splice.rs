use ts_filter::chars::{push_range, to_chars};
use ts_filter::scan::{find_timestamps, Match};
use ts_filter::splice::substitute;

#[test]
fn push_range_appends_the_stretch() {
    let chars = to_chars("héllo wörld");
    let mut out = String::from(">");
    push_range(&mut out, &chars, 1, 5);
    assert_eq!(out, ">éllo");
    push_range(&mut out, &chars, 5, 5);
    assert_eq!(out, ">éllo");
    push_range(&mut out, &chars, 6, 11);
    assert_eq!(out, ">éllowörld");
}

#[test]
fn substitute_with_nothing_to_replace_copies_the_text() {
    let chars = to_chars("foo bar é");
    assert_eq!(substitute(&chars, &[], &[]), "foo bar é");
    assert_eq!(substitute(&[], &[], &[]), "");
}

#[test]
fn substitute_puts_each_text_in_its_place() {
    let chars = to_chars("a 1646764906 é 1646764906847 z");
    let ms = find_timestamps(&chars);
    assert_eq!(ms.len(), 2);
    let texts = vec!["<one>".to_string(), String::new()];
    assert_eq!(substitute(&chars, &ms, &texts), "a <one> é  z");
}

#[test]
fn substitute_at_both_ends() {
    let chars = to_chars("1646764906-1646764906");
    let ms = find_timestamps(&chars);
    let texts = vec!["L".to_string(), "R".to_string()];
    assert_eq!(substitute(&chars, &ms, &texts), "L-R");
}

#[test]
fn substitute_takes_any_stretches_in_order() {
    let chars = to_chars("abcdef");
    let ms = vec![
        Match { start: 0, end: 0, seconds: 0 },
        Match { start: 1, end: 3, seconds: 0 },
        Match { start: 3, end: 4, seconds: 0 },
        Match { start: 6, end: 6, seconds: 0 },
    ];
    let texts =
        vec!["^".to_string(), "BC".to_string(), "".to_string(), "$".to_string()];
    assert_eq!(substitute(&chars, &ms, &texts), "^aBCef$");
}
