use chrono::{Local, TimeZone};
use std::borrow::Cow;
use ts_filter::args::Args;
use ts_filter::filter::{replace, replace_in_zone};

/// One hour ahead of UTC, in seconds.
const UTC_PLUS_1: i32 = 3600;

/// A local zone one hour ahead of UTC at every moment.
fn utc_plus_1(_secs: i64) -> i32 {
    UTC_PLUS_1
}

/// The zone of the machine.
fn local(secs: i64) -> i32 {
    Local.timestamp_opt(secs, 0).unwrap().offset().local_minus_utc()
}

#[test]
fn test_replace() {
    let mut args = Args::default();
    args.no_highlight = true;

    let actual = replace("foo 1646764906847 bar", &args, utc_plus_1);
    let expected = format!("{} {} {}", "foo", "2022-03-08 19:41:46", "bar");
    assert_eq!(actual, expected);

    let actual = replace("foo 1646764906 bar", &args, utc_plus_1);
    assert_eq!(actual, expected);
}

#[test]
fn test_replace_utc() {
    let mut args = Args::default();
    args.no_highlight = true;
    args.utc = true;

    let actual = replace("foo 1646764906847 bar", &args, utc_plus_1);
    let expected = format!("{} {} {}", "foo", "2022-03-08 18:41:46", "bar");
    assert_eq!(actual, expected);
}

#[test]
fn test_replace_rfc3339() {
    let mut args = Args::default();
    args.no_highlight = true;
    args.rfc3339 = true;

    let actual = replace("foo 1646764906847 bar", &args, utc_plus_1);
    let expected = format!("{} {} {}", "foo", "2022-03-08T19:41:46+01:00", "bar");
    assert_eq!(actual, expected);

    let mut args = args.clone();
    args.no_highlight = true;
    args.utc = true;
    args.rfc3339 = true;

    let actual = replace("foo 1646764906847 bar", &args, utc_plus_1);
    let expected = format!("{} {} {}", "foo", "2022-03-08T18:41:46Z", "bar");
    assert_eq!(actual, expected);
}

fn plain() -> Args {
    let mut args = Args::default();
    args.no_highlight = true;
    args
}

fn utc() -> Args {
    let mut args = plain();
    args.utc = true;
    args
}

#[test]
fn seconds_in_utc_give_the_same_as_milliseconds() {
    let expected = "foo 2022-03-08 18:41:46 bar";
    assert_eq!(replace("foo 1646764906 bar", &utc(), local), expected);
    assert_eq!(replace("foo 1646764906847 bar", &utc(), local), expected);
    assert_eq!(replace("foo 1646764906000 bar", &utc(), local), expected);
    assert_eq!(replace("foo 1646764906999 bar", &utc(), local), expected);
}

#[test]
fn a_run_of_five_digits_stays() {
    for args in [Args::default(), plain(), utc()] {
        assert_eq!(replace("x 12345 y", &args, local), "x 12345 y");
        assert_eq!(replace_in_zone("x 12345 y", &args, 3600), "x 12345 y");
    }
}

#[test]
fn runs_that_are_no_timestamps_stay_beside_those_that_are() {
    let text = "164676490 1646764906 16467649061 2646764906 1646764906847 16467649068471";
    assert_eq!(
        replace(text, &utc(), local),
        "164676490 2022-03-08 18:41:46 16467649061 2646764906 2022-03-08 18:41:46 16467649068471"
    );
}

#[test]
fn text_without_digits_comes_back_unchanged_and_borrowed() {
    for text in ["", "foo bar", "no digits — here é\n"] {
        for args in [Args::default(), plain(), utc()] {
            let out = replace(text, &args, local);
            assert_eq!(out, text);
            assert!(matches!(out, Cow::Borrowed(_)));
        }
    }
}

#[test]
fn text_is_copied_only_where_a_timestamp_is_rewritten() {
    assert!(matches!(replace("x 12345 y", &utc(), local), Cow::Borrowed(_)));
    assert!(matches!(replace("x 2646764906 y", &utc(), local), Cow::Borrowed(_)));
    assert!(matches!(replace("x 1646764906 y", &utc(), local), Cow::Owned(_)));
    assert!(matches!(replace_in_zone("x 12345 y", &plain(), 3600), Cow::Borrowed(_)));
    assert!(matches!(replace_in_zone("x 1646764906 y", &plain(), 86_400), Cow::Owned(_)));
}

#[test]
fn every_timestamp_of_a_chunk_is_rewritten() {
    let text = "1000000000,1999999999999\nts=1234567890;\n";
    assert_eq!(
        replace(text, &utc(), local),
        "2001-09-09 01:46:40,2033-05-18 03:33:19\nts=2009-02-13 23:31:30;\n"
    );
}

#[test]
fn a_timestamp_beside_letters_is_rewritten() {
    assert_eq!(replace("at1646764906z", &utc(), local), "at2022-03-08 18:41:46z");
    assert_eq!(replace("é1646764906847ß", &utc(), local), "é2022-03-08 18:41:46ß");
}

#[test]
fn the_zone_changes_the_date() {
    let text = "foo 1646764906847 bar";
    assert_ne!(replace_in_zone(text, &plain(), 3600), replace(text, &utc(), local));
    assert_eq!(replace_in_zone(text, &plain(), 0), replace(text, &utc(), local));
    assert_eq!(replace_in_zone(text, &utc(), 3600), replace(text, &utc(), local));
    assert_eq!(replace_in_zone(text, &plain(), -18000), "foo 2022-03-08 13:41:46 bar");
}

#[test]
fn rfc3339_ends_with_z_in_utc_and_with_the_offset_elsewhere() {
    let mut args = utc();
    args.rfc3339 = true;
    assert_eq!(replace("1646764906", &args, local), "2022-03-08T18:41:46Z");
    args.utc = false;
    assert_eq!(replace_in_zone("1646764906", &args, 3600), "2022-03-08T19:41:46+01:00");
    assert_eq!(replace_in_zone("1646764906", &args, -34200), "2022-03-08T09:11:46-09:30");
    assert_eq!(replace_in_zone("1646764906", &args, 0), "2022-03-08T18:41:46+00:00");
    assert_eq!(replace("1646764906", &args, |_| 0), "2022-03-08T18:41:46+00:00");
}

#[test]
fn rfc3339_tells_utc_from_a_local_zone_at_offset_zero() {
    let mut in_utc = utc();
    in_utc.rfc3339 = true;
    let mut in_zone = plain();
    in_zone.rfc3339 = true;
    let text = "foo 1646764906847 bar";
    assert_eq!(replace_in_zone(text, &in_utc, 0), "foo 2022-03-08T18:41:46Z bar");
    assert_eq!(replace_in_zone(text, &in_zone, 0), "foo 2022-03-08T18:41:46+00:00 bar");
    assert_ne!(replace_in_zone(text, &in_utc, 0), replace_in_zone(text, &in_zone, 0));
}

#[test]
fn the_zone_is_asked_for_each_timestamp_with_its_seconds() {
    // Winter time until the end of March 2022, summer time after it.
    let by_season = |secs: i64| if secs < 1648342800 { 3600 } else { 7200 };
    let text = "1646764906 12345 1656764906847 2646764906";
    assert_eq!(
        replace(text, &plain(), by_season),
        "2022-03-08 19:41:46 12345 2022-07-02 14:28:26 2646764906"
    );
    let mut args = plain();
    args.rfc3339 = true;
    assert_eq!(
        replace(text, &args, by_season),
        "2022-03-08T19:41:46+01:00 12345 2022-07-02T14:28:26+02:00 2646764906"
    );
}

#[test]
fn the_zone_is_not_asked_in_utc_nor_without_a_timestamp() {
    fn never(_secs: i64) -> i32 {
        panic!("asked for the zone")
    }
    assert_eq!(replace("foo 1646764906 bar", &utc(), never), "foo 2022-03-08 18:41:46 bar");
    assert_eq!(replace("foo 12345 2646764906 bar", &plain(), never), "foo 12345 2646764906 bar");
}

#[test]
fn a_timestamp_stays_where_the_zone_is_said_to_be_a_day_or_more_away() {
    let odd = |secs: i64| if secs == 1646764906 { 86_400 } else { 3600 };
    assert_eq!(
        replace("1646764906 1656764906", &plain(), odd),
        "1646764906 2022-07-02 13:28:26"
    );
}

#[test]
fn timestamps_stay_where_the_zone_is_a_day_or_more_away() {
    let text = "foo 1646764906847 bar";
    assert_eq!(replace_in_zone(text, &plain(), 86_400), text);
    assert_eq!(replace_in_zone(text, &plain(), -86_400), text);
    assert_eq!(replace_in_zone(text, &utc(), 86_400), "foo 2022-03-08 18:41:46 bar");
}

#[test]
fn replace_uses_the_zone_of_the_machine() {
    let offset = Local.timestamp_opt(1646764906, 0).unwrap().offset().local_minus_utc();
    let text = "foo 1646764906847 bar 1646764906";
    let mut args = plain();
    assert_eq!(replace(text, &args, local), replace_in_zone(text, &args, offset));
    args.rfc3339 = true;
    assert_eq!(replace(text, &args, local), replace_in_zone(text, &args, offset));
}

#[test]
fn highlight_wraps_the_date_and_nothing_else() {
    let mut marking = utc();
    marking.no_highlight = false;
    let text = "foo 1646764906847 bar 12345";

    colored::control::set_override(true);
    assert_eq!(
        replace(text, &marking, local),
        "foo \x1b[31m2022-03-08 18:41:46\x1b[0m bar 12345"
    );
    assert_eq!(replace(text, &utc(), local), "foo 2022-03-08 18:41:46 bar 12345");
    assert_eq!(replace("x 12345 y", &marking, local), "x 12345 y");

    colored::control::set_override(false);
    assert_eq!(replace(text, &marking, local), "foo 2022-03-08 18:41:46 bar 12345");
    colored::control::unset_override();
}

#[test]
fn a_run_that_is_no_timestamp_stays_between_its_neighbours() {
    let before = "a 1646764906 b=";
    let after = ";1000000000847 z";
    for run in ["12345", "2646764906", "16467649061", "1"] {
        for args in [utc(), plain()] {
            let whole = format!("{}{}{}", before, run, after);
            let in_parts = format!(
                "{}{}{}",
                replace(before, &args, utc_plus_1),
                run,
                replace(after, &args, utc_plus_1)
            );
            assert_eq!(replace(&whole, &args, utc_plus_1), in_parts);
        }
    }
    assert_eq!(
        replace("a 1646764906 b=12345;1000000000847 z", &utc(), utc_plus_1),
        "a 2022-03-08 18:41:46 b=12345;2001-09-09 01:46:40 z"
    );
}

#[test]
fn a_timestamp_is_rewritten_between_its_neighbours() {
    let before = "a 12345 1000000000 b=";
    let after = ";1999999999 z";
    let whole = format!("{}{}{}", before, "1646764906847", after);
    for args in [utc(), plain()] {
        let date = replace("1646764906", &args, utc_plus_1);
        let in_parts = format!(
            "{}{}{}",
            replace(before, &args, utc_plus_1),
            date,
            replace(after, &args, utc_plus_1)
        );
        assert_eq!(replace(&whole, &args, utc_plus_1), in_parts);
    }
    assert_eq!(
        replace(&whole, &plain(), utc_plus_1),
        "a 12345 2001-09-09 02:46:40 b=2022-03-08 19:41:46;2033-05-18 04:33:19 z"
    );
}

#[test]
fn three_more_digits_are_cut_off_not_rounded() {
    let mut rfc = plain();
    rfc.rfc3339 = true;
    for args in [utc(), plain(), rfc] {
        let ten = replace("1646764906", &args, utc_plus_1).into_owned();
        for millis in ["000", "001", "499", "500", "999"] {
            let long = format!("1646764906{}", millis);
            assert_eq!(replace(&long, &args, utc_plus_1), ten);
        }
    }
    assert_eq!(replace("1646764906999", &utc(), utc_plus_1), "2022-03-08 18:41:46");
}
