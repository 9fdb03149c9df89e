//! Calendar dates, as the `chrono` crate computes and writes them.
//!
//! The two functions at the end of this file have no proof: each hands its
//! arguments to `chrono`, and its contract says what `chrono` is relied on
//! to do. Both work from a moment and an offset alone. What offset the zone
//! of the machine has at a moment is for the caller of the library to find
//! out.

use crate::scan::is_digit;
use chrono::{FixedOffset, SecondsFormat, TimeZone};
use std::fmt::Write;
use vstd::prelude::*;

verus! {

/// The number of seconds has at most ten digits: a moment between 1970 and
/// the year 2286.
pub open spec fn ten_digit(secs: int) -> bool {
    0 <= secs <= 9_999_999_999
}

/// A zone may be less than a day ahead of UTC or behind it, in seconds.
pub open spec fn valid_offset(offset: int) -> bool {
    -86_400 < offset < 86_400
}

/// The view of an optional string.
pub open spec fn text_view(r: Option<String>) -> Option<Seq<char>> {
    match r {
        Some(t) => Some(t@),
        None => None,
    }
}

/// `t` ends with `tail`.
pub open spec fn ends_with(t: Seq<char>, tail: Seq<char>) -> bool {
    tail.len() <= t.len() && t.subrange(t.len() - tail.len(), t.len() as int) == tail
}

/// The character of a digit below ten.
pub open spec fn digit_char(d: int) -> char {
    if d == 0 {
        '0'
    } else if d == 1 {
        '1'
    } else if d == 2 {
        '2'
    } else if d == 3 {
        '3'
    } else if d == 4 {
        '4'
    } else if d == 5 {
        '5'
    } else if d == 6 {
        '6'
    } else if d == 7 {
        '7'
    } else if d == 8 {
        '8'
    } else {
        '9'
    }
}

/// Number of characters of a date with its time of day: `YYYY-MM-DD`, one
/// character between, `HH:MM:SS`.
pub const DATE_LEN: usize = 19;

/// `c` may stand at index `i` of a date with its time of day, with `join`
/// between the two: hyphens in the date, colons in the time, digits
/// elsewhere.
pub open spec fn shape_at(i: int, c: char, join: char) -> bool {
    if i == 4 || i == 7 {
        c == '-'
    } else if i == 10 {
        c == join
    } else if i == 13 || i == 16 {
        c == ':'
    } else {
        is_digit(c)
    }
}

/// `t` begins with a date and its time of day: four digits of the year, two
/// of the month and two of the day with hyphens between, then `join`, then
/// two digits each of hour, minute and second with colons between.
pub open spec fn date_shaped(t: Seq<char>, join: char) -> bool {
    &&& t.len() >= DATE_LEN
    &&& forall|i: int| 0 <= i < DATE_LEN ==> shape_at(i, #[trigger] t[i], join)
}

/// How an RFC 3339 text names its zone: `Z` for no offset where `use_z` asks
/// for it, else the sign, the hours, a colon and the minutes of the offset,
/// rounded to the nearest minute.
pub open spec fn zone_suffix(offset: int, use_z: bool) -> Seq<char> {
    if use_z && offset == 0 {
        seq!['Z']
    } else {
        let minutes = ((if offset < 0 { -offset } else { offset }) + 30) / 60;
        let hours = minutes / 60;
        let rest = minutes % 60;
        seq![
            if offset < 0 { '-' } else { '+' },
            digit_char(hours / 10),
            digit_char(hours % 10),
            ':',
            digit_char(rest / 10),
            digit_char(rest % 10),
        ]
    }
}

/// What `chrono` writes for the moment `secs` seconds after the epoch, in a
/// zone `offset` seconds ahead of UTC, under the strftime pattern `pattern`;
/// `None` where it cannot.
pub uninterp spec fn formatted(secs: int, offset: int, pattern: Seq<char>) -> Option<Seq<char>>;

/// What `chrono` writes for the same moment in RFC 3339 form with whole
/// seconds; `None` where it cannot.
pub uninterp spec fn rfc3339_text(secs: int, offset: int, use_z: bool) -> Option<Seq<char>>;

/// Calls `FixedOffset::east_opt`, `TimeZone::timestamp_opt` and
/// `DateTime::format` of `chrono`.
///
/// Relied on: the text depends on the three arguments alone; there is none
/// for a zone a day or more from UTC; and for a zone within a day of UTC the
/// pattern `%Y-%m-%d %H:%M:%S` can always be written, and gives the nineteen
/// characters of a date, a blank and a time of day. The year has four digits
/// because `secs` has at most ten.
#[verifier::external_body]
pub(crate) fn format_at(secs: i64, offset: i32, pattern: &str) -> (r: Option<String>)
    requires
        ten_digit(secs as int),
    ensures
        text_view(r) == formatted(secs as int, offset as int, pattern@),
        !valid_offset(offset as int) ==> r is None,
        valid_offset(offset as int) && pattern@ == "%Y-%m-%d %H:%M:%S"@ ==> r is Some,
        pattern@ == "%Y-%m-%d %H:%M:%S"@ ==> (r matches Some(t) ==> t@.len() == DATE_LEN
            && date_shaped(t@, ' ')),
{
    let zone = FixedOffset::east_opt(offset)?;
    let at = zone.timestamp_opt(secs, 0).single()?;
    let mut text = String::new();
    match write!(text, "{}", at.format(pattern)) {
        Ok(()) => Some(text),
        Err(_) => None,
    }
}

/// Calls `FixedOffset::east_opt`, `TimeZone::timestamp_opt` and
/// `DateTime::to_rfc3339_opts` of `chrono`, with `SecondsFormat::Secs`.
///
/// Relied on: the text depends on the three arguments alone; there is one
/// exactly for a zone within a day of UTC; and it is a date, `T`, a time of
/// day, and then the zone as `zone_suffix` spells it. The year has four
/// digits because `secs` has at most ten.
#[verifier::external_body]
pub(crate) fn rfc3339_at(secs: i64, offset: i32, use_z: bool) -> (r: Option<String>)
    requires
        ten_digit(secs as int),
    ensures
        text_view(r) == rfc3339_text(secs as int, offset as int, use_z),
        r is Some <==> valid_offset(offset as int),
        r matches Some(t) ==> date_shaped(t@, 'T') && t@.skip(DATE_LEN as int) == zone_suffix(
            offset as int,
            use_z,
        ),
{
    let zone = FixedOffset::east_opt(offset)?;
    let at = zone.timestamp_opt(secs, 0).single()?;
    Some(at.to_rfc3339_opts(SecondsFormat::Secs, use_z))
}

} // verus!
