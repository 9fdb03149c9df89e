use chrono::{Local, TimeZone};
use ts_filter::args::Args;
use ts_filter::filter::{date_in_zone, highlight, parse_and_format, ts_to_date};

fn plain() -> Args {
    let mut args = Args::default();
    args.no_highlight = true;
    args
}

fn rfc3339() -> Args {
    let mut args = plain();
    args.rfc3339 = true;
    args
}

fn utc() -> Args {
    let mut args = plain();
    args.utc = true;
    args
}

/// The zone of the machine.
fn local(secs: i64) -> i32 {
    Local.timestamp_opt(secs, 0).unwrap().offset().local_minus_utc()
}

fn text(secs: i64, offset: i32, args: &Args) -> String {
    parse_and_format(secs, offset, args).unwrap()
}

#[test]
fn default_of_args_is_local_plain_form_highlighted_from_stdin() {
    let args = Args::default();
    assert_eq!(args.file, None);
    assert!(!args.no_highlight);
    assert!(!args.utc);
    assert!(!args.rfc3339);
}

#[test]
fn default_form_in_utc() {
    assert_eq!(text(1646764906, 0, &plain()), "2022-03-08 18:41:46");
    assert_eq!(text(0, 0, &plain()), "1970-01-01 00:00:00");
    assert_eq!(text(1000000000, 0, &plain()), "2001-09-09 01:46:40");
    assert_eq!(text(1234567890, 0, &plain()), "2009-02-13 23:31:30");
    assert_eq!(text(1999999999, 0, &plain()), "2033-05-18 03:33:19");
    assert_eq!(text(9999999999, 0, &plain()), "2286-11-20 17:46:39");
}

#[test]
fn default_form_in_other_zones() {
    assert_eq!(text(1646764906, 3600, &plain()), "2022-03-08 19:41:46");
    assert_eq!(text(1646764906, 19800, &plain()), "2022-03-09 00:11:46");
    assert_eq!(text(1646764906, -12600, &plain()), "2022-03-08 15:11:46");
    assert_eq!(text(0, -3600, &plain()), "1969-12-31 23:00:00");
}

#[test]
fn rfc3339_form_in_utc_ends_with_z() {
    let mut args = utc();
    args.rfc3339 = true;
    assert_eq!(text(1646764906, 0, &args), "2022-03-08T18:41:46Z");
    assert_eq!(text(1000000000, 0, &args), "2001-09-09T01:46:40Z");
}

#[test]
fn rfc3339_form_in_a_local_zone_at_offset_zero_ends_with_the_offset() {
    assert_eq!(text(1646764906, 0, &rfc3339()), "2022-03-08T18:41:46+00:00");
    assert_eq!(text(1000000000, 0, &rfc3339()), "2001-09-09T01:46:40+00:00");
    assert_eq!(date_in_zone(1646764906, &rfc3339(), 0).unwrap(), "2022-03-08T18:41:46+00:00");
}

#[test]
fn rfc3339_form_in_other_zones_ends_with_the_offset() {
    assert_eq!(text(1646764906, 3600, &rfc3339()), "2022-03-08T19:41:46+01:00");
    assert_eq!(text(1646764906, -3600, &rfc3339()), "2022-03-08T17:41:46-01:00");
    assert_eq!(text(1646764906, 19800, &rfc3339()), "2022-03-09T00:11:46+05:30");
    assert_eq!(text(1646764906, -12600, &rfc3339()), "2022-03-08T15:11:46-03:30");
    assert_eq!(text(1646764906, 45000, &rfc3339()), "2022-03-09T07:11:46+12:30");
}

#[test]
fn rfc3339_offset_is_rounded_to_the_minute() {
    assert_eq!(text(1646764906, 20, &rfc3339()), "2022-03-08T18:42:06+00:00");
    assert_eq!(text(1646764906, -20, &rfc3339()), "2022-03-08T18:41:26-00:00");
    assert_eq!(text(1646764906, 45, &rfc3339()), "2022-03-08T18:42:31+00:01");
    assert_eq!(text(1646764906, 86399, &rfc3339()), "2022-03-09T18:41:45+24:00");
    assert_eq!(text(1646764906, -86399, &rfc3339()), "2022-03-07T18:41:47-24:00");
}

#[test]
fn no_date_for_seconds_of_more_than_ten_digits_or_below_zero() {
    for args in [plain(), rfc3339()] {
        assert_eq!(parse_and_format(-1, 0, &args), None);
        assert_eq!(parse_and_format(10_000_000_000, 0, &args), None);
        assert_eq!(parse_and_format(i64::MAX, 0, &args), None);
        assert_eq!(parse_and_format(i64::MIN, 0, &args), None);
        assert!(parse_and_format(0, 0, &args).is_some());
        assert!(parse_and_format(9_999_999_999, 0, &args).is_some());
    }
}

#[test]
fn no_date_for_an_offset_of_a_day_or_more() {
    for args in [plain(), rfc3339()] {
        assert_eq!(parse_and_format(1646764906, 86_400, &args), None);
        assert_eq!(parse_and_format(1646764906, -86_400, &args), None);
        assert_eq!(parse_and_format(1646764906, i32::MAX, &args), None);
        assert_eq!(parse_and_format(1646764906, i32::MIN, &args), None);
        assert!(parse_and_format(1646764906, 86_399, &args).is_some());
        assert!(parse_and_format(1646764906, -86_399, &args).is_some());
    }
}

#[test]
fn ts_to_date_in_utc() {
    assert_eq!(ts_to_date(1646764906, &utc(), &local), Some("2022-03-08 18:41:46".to_string()));
    let mut args = utc();
    args.rfc3339 = true;
    assert_eq!(ts_to_date(1646764906, &args, &local), Some("2022-03-08T18:41:46Z".to_string()));
}

#[test]
fn ts_to_date_has_a_date_for_ten_digits_only() {
    for args in [plain(), utc(), rfc3339()] {
        assert_eq!(ts_to_date(-1, &args, &local), None);
        assert_eq!(ts_to_date(10_000_000_000, &args, &local), None);
        assert!(ts_to_date(0, &args, &local).is_some());
        assert!(ts_to_date(9_999_999_999, &args, &local).is_some());
    }
}

#[test]
fn ts_to_date_in_the_zone_of_the_machine() {
    for secs in [1000000000, 1646764906, 1657000000, 1999999999] {
        let offset = Local.timestamp_opt(secs, 0).unwrap().offset().local_minus_utc();
        for args in [plain(), rfc3339()] {
            assert_eq!(ts_to_date(secs, &args, &local), parse_and_format(secs, offset, &args));
        }
    }
}

#[test]
fn date_in_zone_takes_the_zone_given_unless_utc_is_asked_for() {
    assert_eq!(
        date_in_zone(1646764906, &plain(), 3600),
        Some("2022-03-08 19:41:46".to_string())
    );
    assert_eq!(
        date_in_zone(1646764906, &utc(), 3600),
        Some("2022-03-08 18:41:46".to_string())
    );
    assert_eq!(date_in_zone(1646764906, &plain(), 86_400), None);
    assert_eq!(
        date_in_zone(1646764906, &utc(), 86_400),
        Some("2022-03-08 18:41:46".to_string())
    );
    assert_eq!(date_in_zone(-1, &plain(), 3600), None);
}

#[test]
fn ts_to_date_asks_the_zone_for_the_moment() {
    let by_season = |secs: i64| if secs < 1648342800 { 3600 } else { 7200 };
    assert_eq!(
        ts_to_date(1646764906, &plain(), &by_season),
        Some("2022-03-08 19:41:46".to_string())
    );
    assert_eq!(
        ts_to_date(1656764906, &plain(), &by_season),
        Some("2022-07-02 14:28:26".to_string())
    );
    assert_eq!(
        ts_to_date(1656764906, &rfc3339(), &by_season),
        Some("2022-07-02T14:28:26+02:00".to_string())
    );
    assert_eq!(ts_to_date(1656764906, &plain(), &|_| 86_400), None);
}

#[test]
fn ts_to_date_does_not_ask_the_zone_in_utc_nor_for_eleven_digits() {
    fn never(_secs: i64) -> i32 {
        panic!("asked for the zone")
    }
    assert_eq!(ts_to_date(1646764906, &utc(), &never), Some("2022-03-08 18:41:46".to_string()));
    assert_eq!(ts_to_date(10_000_000_000, &plain(), &never), None);
    assert_eq!(ts_to_date(-1, &plain(), &never), None);
}

#[test]
fn zones_show_in_both_forms() {
    for args in [plain(), rfc3339()] {
        assert_ne!(text(1646764906, 0, &args), text(1646764906, 3600, &args));
        assert_ne!(text(1646764906, 0, &args), text(1646764906, -1, &args));
    }
}

#[test]
fn highlight_marks_only_where_asked_and_allowed() {
    let date = "2022-03-08 18:41:46".to_string();
    assert_eq!(highlight(date.clone(), &plain()), date);

    let marking = Args::default();
    colored::control::set_override(true);
    assert_eq!(highlight(date.clone(), &marking), "\x1b[31m2022-03-08 18:41:46\x1b[0m");
    assert_eq!(highlight(date.clone(), &plain()), date);
    assert_eq!(highlight(String::new(), &marking), "\x1b[31m\x1b[0m");

    // Behind a reset inside the text, red is turned on again.
    let inner = "a\x1b[0mb".to_string();
    assert_eq!(highlight(inner.clone(), &marking), "\x1b[31ma\x1b[0m\x1b[31mb\x1b[0m");
    assert_eq!(
        highlight("\x1b[0m".to_string(), &marking),
        "\x1b[31m\x1b[0m\x1b[31m\x1b[0m"
    );
    assert_eq!(
        highlight("\x1b[0m\x1b[0mé".to_string(), &marking),
        "\x1b[31m\x1b[0m\x1b[31m\x1b[0m\x1b[31mé\x1b[0m"
    );
    assert_eq!(highlight("x\x1b[0".to_string(), &marking), "\x1b[31mx\x1b[0\x1b[0m");
    assert_eq!(
        highlight("\x1b[31mred\x1b[1m".to_string(), &marking),
        "\x1b[31m\x1b[31mred\x1b[1m\x1b[0m"
    );
    assert_eq!(highlight(inner.clone(), &plain()), inner);

    colored::control::set_override(false);
    assert_eq!(highlight(date.clone(), &marking), date);
    assert_eq!(highlight(inner.clone(), &marking), inner);
    colored::control::unset_override();
}
