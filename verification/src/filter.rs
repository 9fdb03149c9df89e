//! Rewriting the timestamps of a text as dates.
//!
//! Dates are shown in UTC or in the local zone. What offset the local zone
//! has at a moment is not found out here: the caller hands in a function
//! that tells it, or one offset for all moments.

use crate::args::Args;
use crate::calendar::{
    date_shaped, format_at, formatted, rfc3339_at, rfc3339_text, shape_at, ten_digit, text_view,
    valid_offset, zone_suffix, DATE_LEN,
};
use crate::chars::{push_range, to_chars};
use crate::colour::{emphasized, lemma_restyled_plain, paint_red, restyled, ESCAPE};
use crate::scan::{
    find_timestamps, is_digit, is_timestamp, lemma_seconds_plausible, matches_of,
    plausible_seconds, Match,
};
use crate::splice::{lemma_matches_in_order, lemma_nothing_spliced, spliced, substitute, views};
use std::borrow::Cow;
use vstd::prelude::*;

verus! {

/// The pattern of a date where RFC 3339 is not asked for: year, month and
/// day, a blank, then hour, minute and second of the 24-hour clock.
pub const DEFAULT_DT_FORMAT: &'static str = "%Y-%m-%d %H:%M:%S";

/// The date text of the moment `secs` seconds after the epoch in a zone
/// `offset` seconds ahead of UTC; `None` where there is none. In RFC 3339
/// form only a run in UTC writes its zone as `Z`.
pub open spec fn text_at(args: Args, secs: int, offset: int) -> Option<Seq<char>> {
    if !ten_digit(secs) {
        None
    } else if args.rfc3339 {
        rfc3339_text(secs, offset, args.utc)
    } else {
        formatted(secs, offset, DEFAULT_DT_FORMAT@)
    }
}

/// `t` has the form of a date in a zone `offset` seconds ahead of UTC: in
/// RFC 3339 form a date, `T`, a time of day and the zone; else a date, a
/// blank and a time of day, and no more.
pub open spec fn is_date(args: Args, t: Seq<char>, offset: int) -> bool {
    if args.rfc3339 {
        date_shaped(t, 'T') && t.skip(DATE_LEN as int) == zone_suffix(offset, args.utc)
    } else {
        date_shaped(t, ' ') && t.len() == DATE_LEN
    }
}

/// `t` is `plain`, marked for the terminal where marks are asked for. Whether
/// a mark is made is up to the environment of the process, so with marks
/// asked for `t` may still be `plain`.
pub open spec fn marked(no_highlight: bool, plain: Seq<char>, t: Seq<char>) -> bool {
    if no_highlight {
        t == plain
    } else {
        t == plain || t == emphasized(plain)
    }
}

/// The zone that is `zone` seconds ahead of UTC at every moment.
pub open spec fn fixed_zone(zone: int) -> spec_fn(int, int) -> bool {
    |secs: int, offset: int| offset == zone
}

/// The zone whose offset at a moment is what `offset_at` answers for it.
pub open spec fn looked_up<F: Fn(i64) -> i32>(offset_at: F) -> spec_fn(int, int) -> bool {
    |secs: int, offset: int|
        {
            &&& i64::MIN <= secs <= i64::MAX
            &&& i32::MIN <= offset <= i32::MAX
            &&& call_ensures(offset_at, (secs as i64,), offset as i32)
        }
}

/// The zone has one offset at most at each moment.
pub open spec fn one_offset(zone: spec_fn(int, int) -> bool) -> bool {
    forall|secs: int, o1: int, o2: int| #[trigger]
        zone(secs, o1) && #[trigger] zone(secs, o2) ==> o1 == o2
}

/// Dates of the moment `secs` may be shown `offset` seconds ahead of UTC:
/// zero where UTC is asked for, else an offset that `zone` has at that
/// moment.
pub open spec fn offset_allowed(
    utc: bool,
    zone: spec_fn(int, int) -> bool,
    secs: int,
    offset: int,
) -> bool {
    if utc {
        offset == 0
    } else {
        zone(secs, offset)
    }
}

/// `r` is the date text of `secs` in a zone `offset` seconds ahead of UTC. It
/// is missing exactly where `secs` has more than ten digits or the zone is a
/// day or more from UTC, and where it is there it has the form of a date.
pub open spec fn dated_at(args: Args, offset: int, secs: int, r: Option<Seq<char>>) -> bool {
    &&& r == text_at(args, secs, offset)
    &&& r is Some <==> ten_digit(secs) && valid_offset(offset)
    &&& r matches Some(t) ==> is_date(args, t, offset)
}

/// `r` is the date text of `secs` at an offset that `args` and `zone` allow.
/// For a number of more than ten digits there is no text, and the zone is
/// not asked.
pub open spec fn dated(
    args: Args,
    zone: spec_fn(int, int) -> bool,
    secs: int,
    r: Option<Seq<char>>,
) -> bool {
    if ten_digit(secs) {
        exists|offset: int|
            offset_allowed(args.utc, zone, secs, offset) && #[trigger] dated_at(
                args,
                offset,
                secs,
                r,
            )
    } else {
        r is None
    }
}

/// `t` may stand in the place of a timestamp of `secs` seconds that was
/// written as `raw`, for a zone `offset` seconds ahead of UTC: the date text,
/// which has the form of a date, marked or not; or `raw` itself for an offset
/// of a day or more, for which there is no date text.
pub open spec fn replaces_at(
    args: Args,
    offset: int,
    secs: int,
    raw: Seq<char>,
    t: Seq<char>,
) -> bool {
    match text_at(args, secs, offset) {
        Some(plain) => {
            &&& valid_offset(offset)
            &&& is_date(args, plain, offset)
            &&& marked(args.no_highlight, plain, t)
        },
        None => !valid_offset(offset) && t == raw,
    }
}

/// `t` may stand in the place of a timestamp of `secs` seconds that was
/// written as `raw`.
pub open spec fn replaces(
    args: Args,
    zone: spec_fn(int, int) -> bool,
    secs: int,
    raw: Seq<char>,
    t: Seq<char>,
) -> bool {
    exists|offset: int|
        offset_allowed(args.utc, zone, secs, offset) && #[trigger] replaces_at(
            args,
            offset,
            secs,
            raw,
            t,
        )
}

/// `ms` are the timestamps of `s`, and `texts` may stand in their places.
pub open spec fn fills(
    s: Seq<char>,
    args: Args,
    zone: spec_fn(int, int) -> bool,
    ms: Seq<Match>,
    texts: Seq<Seq<char>>,
) -> bool {
    &&& matches_of(s, ms)
    &&& texts.len() == ms.len()
    &&& forall|k: int|
        0 <= k < ms.len() ==> replaces(
            args,
            zone,
            ms[k].seconds as int,
            ms[k].raw(s),
            #[trigger] texts[k],
        )
}

/// `out` is `s` with every timestamp rewritten as a date, and nothing else
/// changed.
pub open spec fn rewritten(
    s: Seq<char>,
    args: Args,
    zone: spec_fn(int, int) -> bool,
    out: Seq<char>,
) -> bool {
    exists|ms: Seq<Match>, texts: Seq<Seq<char>>|
        fills(s, args, zone, ms, texts) && out == spliced(s, ms, texts)
}

/// `s` has no timestamp.
pub open spec fn no_timestamp(s: Seq<char>) -> bool {
    forall|a: int, b: int| !is_timestamp(s, a, b)
}

/// `offset_at` can be asked for the offset at the moment of any timestamp.
pub open spec fn answers_timestamps<F: Fn(i64) -> i32>(offset_at: F) -> bool {
    forall|secs: i64| plausible_seconds(secs as int) ==> call_requires(offset_at, (secs,))
}

/// Writes the moment `secs` seconds after the epoch as a date in the zone
/// `offset` seconds ahead of UTC, in the form that `args` asks for.
///
/// There is a text for every number of seconds of at most ten digits and
/// every offset of less than a day, and for no other. In RFC 3339 form the
/// zone is written as `Z` only where `args` asks for UTC and the offset is
/// zero; else as sign, hours and minutes, `+00:00` for no offset.
pub fn parse_and_format(secs: i64, offset: i32, args: &Args) -> (r: Option<String>)
    ensures
        text_view(r) == text_at(*args, secs as int, offset as int),
        r is Some <==> ten_digit(secs as int) && valid_offset(offset as int),
        r matches Some(t) ==> is_date(*args, t@, offset as int),
{
    if secs < 0 || secs > 9_999_999_999 {
        None
    } else if args.rfc3339 {
        rfc3339_at(secs, offset, args.utc)
    } else {
        format_at(secs, offset, DEFAULT_DT_FORMAT)
    }
}

/// Marks `text` for the terminal unless `args` says not to.
///
/// Where marks are asked for, the environment of the process still decides
/// whether one is made: `text` comes back either as it was, or between the
/// sequences for red and for reset, with red turned on again behind every
/// reset that `text` holds itself. A text without an escape character, as
/// every date is, comes back as it was or between the two sequences.
pub fn highlight(text: String, args: &Args) -> (r: String)
    ensures
        args.no_highlight ==> r@ == text@,
        !args.no_highlight ==> r@ == text@ || r@ == emphasized(restyled(text@)),
        !text@.contains(ESCAPE) ==> marked(args.no_highlight, text@, r@),
{
    proof {
        if !text@.contains(ESCAPE) {
            lemma_restyled_plain(text@);
        }
    }
    if args.no_highlight {
        text
    } else {
        paint_red(text.as_str())
    }
}

/// Writes the moment `secs` seconds after the epoch as a date: in UTC if
/// `args` asks for it, else in the zone `zone` seconds ahead of UTC.
pub fn date_in_zone(secs: i64, args: &Args, zone: i32) -> (r: Option<String>)
    ensures
        dated_at(*args, if args.utc { 0 } else { zone as int }, secs as int, text_view(r)),
{
    let offset: i32 = if args.utc { 0 } else { zone };
    parse_and_format(secs, offset, args)
}

/// Writes the moment `secs` seconds after the epoch as a date in the zone
/// that `args` asks for: UTC, or the local zone, whose offset at that
/// moment `offset_at` tells.
///
/// There is no text for a number of more than ten digits, and `offset_at`
/// is not asked then, nor where UTC is asked for. Else the text is the one
/// for the offset that `offset_at` answered, which is missing only if that
/// offset is a day or more.
pub fn ts_to_date<F: Fn(i64) -> i32>(secs: i64, args: &Args, offset_at: &F) -> (r: Option<String>)
    requires
        !args.utc && ten_digit(secs as int) ==> call_requires(*offset_at, (secs,)),
    ensures
        dated(*args, looked_up(*offset_at), secs as int, text_view(r)),
        args.utc ==> text_view(r) == text_at(*args, secs as int, 0),
        r is Some ==> ten_digit(secs as int),
{
    if secs < 0 || secs > 9_999_999_999 {
        return None;
    }
    let offset: i32 = if args.utc {
        0
    } else {
        offset_at(secs)
    };
    let r = parse_and_format(secs, offset, args);
    assert(dated_at(*args, offset as int, secs as int, text_view(r)));
    assert(offset_allowed(args.utc, looked_up(*offset_at), secs as int, offset as int));
    r
}

/// The digits of `m` as a string.
fn raw_text(s: &[char], m: &Match) -> (r: String)
    requires
        m.start <= m.end <= s.len(),
    ensures
        r@ == m.raw(s@),
{
    let mut r = String::new();
    push_range(&mut r, s, m.start, m.end);
    r
}

/// The texts to put in the places of the timestamps `ms` of `s`.
fn date_texts<F: Fn(i64) -> i32>(s: &[char], ms: &[Match], args: &Args, offset_at: &F) -> (texts:
    Vec<String>)
    requires
        matches_of(s@, ms@),
        answers_timestamps(*offset_at),
    ensures
        fills(s@, *args, looked_up(*offset_at), ms@, views(texts@)),
{
    let ghost zone = looked_up(*offset_at);
    let mut texts: Vec<String> = Vec::new();
    let mut k: usize = 0;
    while k < ms.len()
        invariant
            matches_of(s@, ms@),
            answers_timestamps(*offset_at),
            zone == looked_up(*offset_at),
            k <= ms.len(),
            texts.len() == k,
            forall|j: int|
                0 <= j < k ==> replaces(
                    *args,
                    zone,
                    ms@[j].seconds as int,
                    ms@[j].raw(s@),
                    #[trigger] texts@[j]@,
                ),
        decreases ms.len() - k,
    {
        let m = ms[k];
        proof {
            assert(ms@[k as int].is_in(s@));
            let digits = s@.subrange(m.start as int, m.start + 10);
            assert forall|i: int| 0 <= i < digits.len() implies is_digit(#[trigger] digits[i]) by {
                assert(digits[i] == s@[m.start + i]);
            }
            lemma_seconds_plausible(digits);
        }
        let found = ts_to_date(m.seconds, args, offset_at);
        let ghost plain = text_view(found);
        let ghost offset = choose|offset: int|
            offset_allowed(args.utc, zone, m.seconds as int, offset) && #[trigger] dated_at(
                *args,
                offset,
                m.seconds as int,
                plain,
            );
        proof {
            if plain is Some {
                lemma_date_has_no_escape(*args, plain->0, offset);
            }
        }
        let text = match found {
            Some(plain) => highlight(plain, args),
            None => raw_text(s, &m),
        };
        assert(replaces_at(*args, offset, m.seconds as int, m.raw(s@), text@));
        texts.push(text);
        k += 1;
    }
    texts
}

/// Rewrites the timestamps of `input`, with the local zone as `offset_at`
/// tells it.
fn rewrite<'a, F: Fn(i64) -> i32>(input: &'a str, args: &Args, offset_at: &F) -> (out: Cow<
    'a,
    str,
>)
    requires
        answers_timestamps(*offset_at),
    ensures
        rewritten(input@, *args, looked_up(*offset_at), out@),
        out is Borrowed <==> no_timestamp(input@),
        out matches Cow::Borrowed(kept) ==> kept@ == input@,
{
    let chars = to_chars(input);
    let ms = find_timestamps(chars.as_slice());
    if ms.len() == 0 {
        proof {
            let none = Seq::<Seq<char>>::empty();
            lemma_nothing_spliced(input@, none);
            assert(ms@ =~= Seq::<Match>::empty());
            assert(fills(input@, *args, looked_up(*offset_at), ms@, none));
        }
        return Cow::Borrowed(input);
    }
    let texts = date_texts(chars.as_slice(), ms.as_slice(), args, offset_at);
    proof {
        lemma_matches_in_order(input@, ms@);
        assert(ms@[0].is_in(input@));
        assert(is_timestamp(input@, ms@[0].start as int, ms@[0].end as int));
    }
    let out = substitute(chars.as_slice(), ms.as_slice(), texts.as_slice());
    Cow::Owned(out)
}

/// Rewrites every timestamp of `input` as a date, in the form and the zone
/// that `args` asks for, and leaves the rest of `input` as it is.
///
/// With `args.utc` the dates are in UTC. Else they are in the local zone:
/// for each timestamp `offset_at` is asked once, with the seconds of the
/// timestamp, how many seconds the zone is ahead of UTC at that moment. If
/// it answers a day or more, the timestamp stays as it is. A text without a
/// timestamp comes back as it was given, not copied.
pub fn replace<'a, F: Fn(i64) -> i32>(input: &'a str, args: &Args, offset_at: F) -> (out: Cow<
    'a,
    str,
>)
    requires
        answers_timestamps(offset_at),
    ensures
        rewritten(input@, *args, looked_up(offset_at), out@),
        out is Borrowed <==> no_timestamp(input@),
        no_timestamp(input@) ==> out@ == input@,
        (forall|i: int| 0 <= i < input@.len() ==> !is_digit(#[trigger] input@[i])) ==> out@
            == input@,
{
    proof {
        if forall|i: int| 0 <= i < input@.len() ==> !is_digit(#[trigger] input@[i]) {
            lemma_no_digit_no_timestamp(input@);
        }
    }
    rewrite(input, args, &offset_at)
}

/// Rewrites every timestamp of `input` as `replace` does, with the local
/// zone `offset` seconds ahead of UTC at every moment.
///
/// For an offset of a day or more there are no dates: unless `args.utc`
/// holds, the timestamps then stay as they are.
pub fn replace_in_zone<'a>(input: &'a str, args: &Args, offset: i32) -> (out: Cow<'a, str>)
    ensures
        rewritten(input@, *args, fixed_zone(offset as int), out@),
        out is Borrowed <==> no_timestamp(input@),
        no_timestamp(input@) ==> out@ == input@,
        (forall|i: int| 0 <= i < input@.len() ==> !is_digit(#[trigger] input@[i])) ==> out@
            == input@,
{
    proof {
        if forall|i: int| 0 <= i < input@.len() ==> !is_digit(#[trigger] input@[i]) {
            lemma_no_digit_no_timestamp(input@);
        }
    }
    let offset_at = |secs: i64| -> (o: i32)
        ensures
            o == offset,
        { offset };
    let out = rewrite(input, args, &offset_at);
    proof {
        lemma_zone_widened(
            input@,
            *args,
            looked_up(offset_at),
            fixed_zone(offset as int),
            out@,
        );
    }
    out
}

/// A date holds no escape character.
pub proof fn lemma_date_has_no_escape(args: Args, t: Seq<char>, offset: int)
    requires
        is_date(args, t, offset),
    ensures
        !t.contains(ESCAPE),
{
    let join = if args.rfc3339 { 'T' } else { ' ' };
    let zone = zone_suffix(offset, args.utc);
    assert forall|i: int| 0 <= i < t.len() implies t[i] != ESCAPE by {
        if i < DATE_LEN {
            assert(shape_at(i, t[i], join));
        } else {
            let j = i - DATE_LEN;
            assert(t[i] == t.skip(DATE_LEN as int)[j]);
            assert(zone.len() == 1 || zone.len() == 6);
            assert(zone[j] != ESCAPE) by {
                if j == 0 {
                    assert(zone[0] == 'Z' || zone[0] == '+' || zone[0] == '-');
                } else if j == 1 {
                    assert(is_digit(zone[1]));
                } else if j == 2 {
                    assert(is_digit(zone[2]));
                } else if j == 3 {
                    assert(zone[3] == ':');
                } else if j == 4 {
                    assert(is_digit(zone[4]));
                } else {
                    assert(is_digit(zone[5]));
                }
            }
        }
    }
}

/// What is rewritten for one zone is rewritten for every zone that allows
/// the same offsets and more.
pub proof fn lemma_zone_widened(
    s: Seq<char>,
    args: Args,
    narrow: spec_fn(int, int) -> bool,
    wide: spec_fn(int, int) -> bool,
    out: Seq<char>,
)
    requires
        rewritten(s, args, narrow, out),
        forall|secs: int, offset: int| #[trigger] narrow(secs, offset) ==> wide(secs, offset),
    ensures
        rewritten(s, args, wide, out),
{
    let (ms, texts) = choose|ms: Seq<Match>, texts: Seq<Seq<char>>|
        fills(s, args, narrow, ms, texts) && out == spliced(s, ms, texts);
    assert forall|k: int| 0 <= k < ms.len() implies replaces(
        args,
        wide,
        ms[k].seconds as int,
        ms[k].raw(s),
        #[trigger] texts[k],
    ) by {
        let secs = ms[k].seconds as int;
        assert(replaces(args, narrow, secs, ms[k].raw(s), texts[k]));
        let offset = choose|offset: int|
            offset_allowed(args.utc, narrow, secs, offset) && #[trigger] replaces_at(
                args,
                offset,
                secs,
                ms[k].raw(s),
                texts[k],
            );
        assert(offset_allowed(args.utc, wide, secs, offset));
    }
    assert(fills(s, args, wide, ms, texts));
}

/// A text without a digit has no timestamp.
pub proof fn lemma_no_digit_no_timestamp(s: Seq<char>)
    requires
        forall|i: int| 0 <= i < s.len() ==> !is_digit(#[trigger] s[i]),
    ensures
        no_timestamp(s),
{
    assert forall|a: int, b: int| !is_timestamp(s, a, b) by {
        if is_timestamp(s, a, b) {
            assert(is_digit(s[a]));
        }
    }
}

} // verus!
