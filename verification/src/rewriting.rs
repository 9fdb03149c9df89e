//! What holds of every rewriting of a text.
//!
//! The lemmas here speak of `rewritten`, the contract of `replace` and of
//! `replace_in_zone`, so each holds of every text that these functions give
//! back.

use crate::args::Args;
use crate::calendar::{ends_with, valid_offset, zone_suffix, DATE_LEN};
use crate::colour::emphasized;
use crate::filter::{
    fills, is_date, offset_allowed, one_offset, replaces, replaces_at, rewritten, text_at,
};
use crate::scan::{
    is_digit, is_run, is_timestamp, lemma_matches_unique, lemma_millis_read_as_seconds,
    lemma_runs_meet, lemma_seconds_plausible, matches_of, plausible_seconds, seconds_at,
    timestamp_shape, Match, MILLIS_DIGITS, SECONDS_DIGITS,
};
use crate::splice::{
    apart, landing, lemma_matches_concat, lemma_matches_in_order, lemma_matches_split,
    lemma_no_digit_no_match, lemma_nothing_spliced, lemma_other_runs_kept, lemma_spliced_concat,
    shifted, shifted_back, spliced, spliced_from,
};
use vstd::prelude::*;

verus! {

/// The stretch `s[a..b]` stands in `out` from `at` on.
pub open spec fn kept_at(s: Seq<char>, out: Seq<char>, a: int, b: int, at: int) -> bool {
    &&& 0 <= at
    &&& at + (b - a) <= out.len()
    &&& out.subrange(at, at + (b - a)) == s.subrange(a, b)
}

/// A run of digits that is no timestamp, because it has not ten or thirteen
/// digits or does not start with `1`, stands in the rewritten text as it
/// stood in the text given: at the place where the text before it, with its
/// dates written out, ends.
pub proof fn lemma_other_runs_survive(
    s: Seq<char>,
    args: Args,
    zone: spec_fn(int, int) -> bool,
    out: Seq<char>,
    a: int,
    b: int,
)
    requires
        rewritten(s, args, zone, out),
        is_run(s, a, b),
        !timestamp_shape(b - a, s[a]),
    ensures
        exists|ms: Seq<Match>, texts: Seq<Seq<char>>|
            fills(s, args, zone, ms, texts) && out == spliced(s, ms, texts) && kept_at(
                s,
                out,
                a,
                b,
                landing(ms, texts, a),
            ),
{
    let (ms, texts) = choose|ms: Seq<Match>, texts: Seq<Seq<char>>|
        fills(s, args, zone, ms, texts) && out == spliced(s, ms, texts);
    lemma_other_runs_kept(s, ms, texts, a, b);
}

/// A text without a digit is rewritten to itself.
pub proof fn lemma_no_digit_unchanged(
    s: Seq<char>,
    args: Args,
    zone: spec_fn(int, int) -> bool,
    out: Seq<char>,
)
    requires
        rewritten(s, args, zone, out),
        forall|i: int| 0 <= i < s.len() ==> !is_digit(#[trigger] s[i]),
    ensures
        out == s,
{
    let (ms, texts) = choose|ms: Seq<Match>, texts: Seq<Seq<char>>|
        fills(s, args, zone, ms, texts) && out == spliced(s, ms, texts);
    lemma_no_digit_no_match(s, ms);
    assert(ms =~= Seq::<Match>::empty());
    lemma_nothing_spliced(s, texts);
}

/// Where the zone has one offset at each moment, a timestamp can be
/// rewritten without marks in one way only.
pub proof fn lemma_replaced_once(
    args: Args,
    zone: spec_fn(int, int) -> bool,
    secs: int,
    raw: Seq<char>,
    t1: Seq<char>,
    t2: Seq<char>,
)
    requires
        args.no_highlight,
        args.utc || one_offset(zone),
        replaces(args, zone, secs, raw, t1),
        replaces(args, zone, secs, raw, t2),
    ensures
        t1 == t2,
{
    let o1 = choose|offset: int|
        offset_allowed(args.utc, zone, secs, offset) && #[trigger] replaces_at(
            args,
            offset,
            secs,
            raw,
            t1,
        );
    let o2 = choose|offset: int|
        offset_allowed(args.utc, zone, secs, offset) && #[trigger] replaces_at(
            args,
            offset,
            secs,
            raw,
            t2,
        );
    assert(o1 == o2);
}

/// Without marks, and where the zone has one offset at each moment, a text
/// can be rewritten in one way only.
pub proof fn lemma_rewritten_once(
    s: Seq<char>,
    args: Args,
    zone: spec_fn(int, int) -> bool,
    out1: Seq<char>,
    out2: Seq<char>,
)
    requires
        args.no_highlight,
        args.utc || one_offset(zone),
        rewritten(s, args, zone, out1),
        rewritten(s, args, zone, out2),
    ensures
        out1 == out2,
{
    let (ms1, texts1) = choose|ms: Seq<Match>, texts: Seq<Seq<char>>|
        fills(s, args, zone, ms, texts) && out1 == spliced(s, ms, texts);
    let (ms2, texts2) = choose|ms: Seq<Match>, texts: Seq<Seq<char>>|
        fills(s, args, zone, ms, texts) && out2 == spliced(s, ms, texts);
    lemma_matches_unique(s, ms1, ms2);
    assert forall|k: int| 0 <= k < texts1.len() implies texts1[k] == texts2[k] by {
        lemma_replaced_once(
            args,
            zone,
            ms1[k].seconds as int,
            ms1[k].raw(s),
            texts1[k],
            texts2[k],
        );
    }
    assert(texts1 =~= texts2);
}

/// A timestamp of thirteen digits is rewritten as the timestamp that its
/// first ten digits make: the two have the same seconds, and what may stand
/// in the place of the one may stand in the place of the other.
pub proof fn lemma_millis_same_date(
    args: Args,
    offset: int,
    s1: Seq<char>,
    m1: Match,
    s2: Seq<char>,
    m2: Match,
    t: Seq<char>,
)
    requires
        m1.is_in(s1),
        m2.is_in(s2),
        m1.end - m1.start == SECONDS_DIGITS,
        m2.end - m2.start == MILLIS_DIGITS,
        m2.raw(s2).subrange(0, SECONDS_DIGITS as int) == m1.raw(s1),
        valid_offset(offset),
    ensures
        m2.seconds == m1.seconds,
        replaces_at(args, offset, m1.seconds as int, m1.raw(s1), t) <==> replaces_at(
            args,
            offset,
            m2.seconds as int,
            m2.raw(s2),
            t,
        ),
{
    assert(s2.subrange(m2.start as int, m2.start + SECONDS_DIGITS) =~= m2.raw(s2).subrange(
        0,
        SECONDS_DIGITS as int,
    ));
    assert(s1.subrange(m1.start as int, m1.start + SECONDS_DIGITS) =~= m1.raw(s1));
    lemma_millis_read_as_seconds(s1, m1.start as int, s2, m2.start as int);
}

/// How the zone ends an RFC 3339 date: for a run in UTC as `Z`; for a run in
/// the local zone as a sign, two digits of hours, a colon and two digits of
/// minutes, also where the local zone is no way off UTC.
pub proof fn lemma_zone_suffix_form(offset: int, utc: bool)
    ensures
        utc && offset == 0 ==> zone_suffix(offset, utc) == seq!['Z'],
        !(utc && offset == 0) ==> ({
            let z = zone_suffix(offset, utc);
            &&& z.len() == 6
            &&& z[0] == (if offset < 0 { '-' } else { '+' })
            &&& is_digit(z[1])
            &&& is_digit(z[2])
            &&& z[3] == ':'
            &&& is_digit(z[4])
            &&& is_digit(z[5])
        }),
        !utc && offset == 0 ==> zone_suffix(offset, utc) == seq!['+', '0', '0', ':', '0', '0'],
{
}

/// An RFC 3339 date ends with its zone.
pub proof fn lemma_rfc3339_ends_with_zone(args: Args, t: Seq<char>, offset: int)
    requires
        args.rfc3339,
        is_date(args, t, offset),
    ensures
        ends_with(t, zone_suffix(offset, args.utc)),
        t.len() == DATE_LEN + zone_suffix(offset, args.utc).len(),
{
    let zone = zone_suffix(offset, args.utc);
    assert(t.skip(DATE_LEN as int).len() == zone.len());
    assert(t.subrange(t.len() - zone.len(), t.len() as int) =~= t.skip(DATE_LEN as int));
}

/// In RFC 3339 form the date of a moment in a run in UTC differs from its
/// date in a run in the local zone, whatever the offset of that zone.
pub proof fn lemma_rfc3339_tells_zones_apart(
    in_utc: Args,
    in_zone: Args,
    offset: int,
    secs: int,
    raw: Seq<char>,
    utc_text: Seq<char>,
    zone_text: Seq<char>,
)
    requires
        in_utc.utc && in_utc.rfc3339 && in_utc.no_highlight,
        !in_zone.utc && in_zone.rfc3339 && in_zone.no_highlight,
        valid_offset(offset),
        replaces_at(in_utc, 0, secs, raw, utc_text),
        replaces_at(in_zone, offset, secs, raw, zone_text),
    ensures
        utc_text != zone_text,
{
    lemma_zone_suffix_form(0, true);
    lemma_zone_suffix_form(offset, false);
    lemma_rfc3339_ends_with_zone(in_utc, utc_text, 0);
    lemma_rfc3339_ends_with_zone(in_zone, zone_text, offset);
    let z = zone_suffix(offset, false);
    assert(utc_text.last() == zone_suffix(0, true)[0]);
    assert(zone_text.last() == z[5]);
}

/// Asking for marks changes the dates only, and a date only by putting it
/// between the two marks: two rewritings of one text that differ in nothing
/// but the marks have the same timestamps in the same places, and where the
/// one has a date the other has the same date, marked or not.
pub proof fn lemma_marks_touch_dates_only(
    s: Seq<char>,
    plain: Args,
    marking: Args,
    zone: spec_fn(int, int) -> bool,
    out_plain: Seq<char>,
    out_marked: Seq<char>,
)
    requires
        plain.no_highlight,
        !marking.no_highlight,
        plain.utc == marking.utc,
        plain.rfc3339 == marking.rfc3339,
        plain.utc || one_offset(zone),
        rewritten(s, plain, zone, out_plain),
        rewritten(s, marking, zone, out_marked),
    ensures
        exists|ms: Seq<Match>, dates: Seq<Seq<char>>, texts: Seq<Seq<char>>|
            {
                &&& matches_of(s, ms)
                &&& dates.len() == ms.len()
                &&& texts.len() == ms.len()
                &&& out_plain == spliced(s, ms, dates)
                &&& out_marked == spliced(s, ms, texts)
                &&& forall|k: int|
                    0 <= k < ms.len() ==> #[trigger] texts[k] == dates[k] || texts[k]
                        == emphasized(dates[k])
            },
{
    let (ms1, dates) = choose|ms: Seq<Match>, texts: Seq<Seq<char>>|
        fills(s, plain, zone, ms, texts) && out_plain == spliced(s, ms, texts);
    let (ms2, texts) = choose|ms: Seq<Match>, texts: Seq<Seq<char>>|
        fills(s, marking, zone, ms, texts) && out_marked == spliced(s, ms, texts);
    lemma_matches_unique(s, ms1, ms2);
    assert forall|k: int| 0 <= k < ms1.len() implies #[trigger] texts[k] == dates[k] || texts[k]
        == emphasized(dates[k]) by {
        let secs = ms1[k].seconds as int;
        let raw = ms1[k].raw(s);
        assert(replaces(plain, zone, secs, raw, dates[k]));
        assert(replaces(marking, zone, secs, raw, texts[k]));
        let o1 = choose|offset: int|
            offset_allowed(plain.utc, zone, secs, offset) && #[trigger] replaces_at(
                plain,
                offset,
                secs,
                raw,
                dates[k],
            );
        let o2 = choose|offset: int|
            offset_allowed(marking.utc, zone, secs, offset) && #[trigger] replaces_at(
                marking,
                offset,
                secs,
                raw,
                texts[k],
            );
        assert(o1 == o2);
        assert(text_at(plain, secs, o1) == text_at(marking, secs, o1));
    }
}

/// Two texts that no run of digits joins are rewritten side by side as each
/// would be alone: a rewriting of the one followed by a rewriting of the
/// other is a rewriting of the two joined.
pub proof fn lemma_rewritten_concat(
    x: Seq<char>,
    y: Seq<char>,
    args: Args,
    zone: spec_fn(int, int) -> bool,
    ox: Seq<char>,
    oy: Seq<char>,
)
    requires
        rewritten(x, args, zone, ox),
        rewritten(y, args, zone, oy),
        apart(x, y),
        x.len() + y.len() <= usize::MAX,
    ensures
        rewritten(x + y, args, zone, ox + oy),
{
    let (mx, tx) = choose|ms: Seq<Match>, texts: Seq<Seq<char>>|
        fills(x, args, zone, ms, texts) && ox == spliced(x, ms, texts);
    let (my, ty) = choose|ms: Seq<Match>, texts: Seq<Seq<char>>|
        fills(y, args, zone, ms, texts) && oy == spliced(y, ms, texts);
    let all = mx + shifted(my, x.len() as int);
    let texts = tx + ty;
    lemma_matches_concat(x, y, mx, my);
    lemma_matches_in_order(x, mx);
    lemma_matches_in_order(y, my);
    lemma_spliced_concat(x, y, mx, my, tx, ty);
    assert forall|k: int| 0 <= k < all.len() implies replaces(
        args,
        zone,
        all[k].seconds as int,
        all[k].raw(x + y),
        #[trigger] texts[k],
    ) by {
        if k < mx.len() {
            assert(all[k] == mx[k]);
            assert(texts[k] == tx[k]);
            assert(replaces(args, zone, mx[k].seconds as int, mx[k].raw(x), tx[k]));
        } else {
            let j = k - mx.len();
            assert(all[mx.len() + j].seconds == my[j].seconds);
            assert(texts[k] == ty[j]);
            assert(replaces(args, zone, my[j].seconds as int, my[j].raw(y), ty[j]));
        }
    }
    assert(fills(x + y, args, zone, all, texts));
}

/// The one timestamp of a text that is a timestamp from end to end.
pub open spec fn whole(r: Seq<char>) -> Match {
    Match { start: 0, end: r.len() as usize, seconds: seconds_at(r, 0) as i64 }
}

/// A text that is a timestamp from end to end has that timestamp and no
/// other.
pub proof fn lemma_whole_is_all(r: Seq<char>)
    requires
        is_timestamp(r, 0, r.len() as int),
    ensures
        matches_of(r, seq![whole(r)]),
        whole(r).seconds == seconds_at(r, 0),
        whole(r).raw(r) == r,
        plausible_seconds(seconds_at(r, 0)),
{
    let digits = r.subrange(0, SECONDS_DIGITS as int);
    assert forall|i: int| 0 <= i < digits.len() implies is_digit(#[trigger] digits[i]) by {
        assert(digits[i] == r[i]);
    }
    lemma_seconds_plausible(digits);
    let ms = seq![whole(r)];
    assert(ms[0].is_in(r));
    assert forall|a: int, b: int| #[trigger] is_timestamp(r, a, b) && b <= r.len() implies exists|
        k: int,
    |
        0 <= k < ms.len() && (#[trigger] ms[k]).start == a && ms[k].end == b by {
        lemma_runs_meet(r, a, b, 0, r.len() as int, a);
        assert(ms[0].start == a && ms[0].end == b);
    }
    assert(r.subrange(0, r.len() as int) =~= r);
}

/// A text that is a timestamp from end to end is rewritten to what may
/// stand in the place of that timestamp, and to nothing else.
pub proof fn lemma_timestamp_alone(
    r: Seq<char>,
    args: Args,
    zone: spec_fn(int, int) -> bool,
    t: Seq<char>,
)
    requires
        is_timestamp(r, 0, r.len() as int),
    ensures
        rewritten(r, args, zone, t) <==> replaces(args, zone, seconds_at(r, 0), r, t),
{
    lemma_whole_is_all(r);
    let one = seq![whole(r)];
    lemma_matches_in_order(r, one);
    if replaces(args, zone, seconds_at(r, 0), r, t) {
        let texts = seq![t];
        reveal_with_fuel(spliced_from, 3);
        assert(spliced(r, one, texts) =~= t);
        assert(fills(r, args, zone, one, texts));
    }
    if rewritten(r, args, zone, t) {
        let (ms, texts) = choose|ms: Seq<Match>, texts: Seq<Seq<char>>|
            fills(r, args, zone, ms, texts) && t == spliced(r, ms, texts);
        lemma_matches_unique(r, ms, one);
        reveal_with_fuel(spliced_from, 3);
        assert(spliced(r, one, texts) =~= texts[0]);
        assert(replaces(args, zone, ms[0].seconds as int, ms[0].raw(r), texts[0]));
    }
}

/// A text that is a run of digits from end to end, but no timestamp, is
/// rewritten to itself.
pub proof fn lemma_other_run_alone(r: Seq<char>, args: Args, zone: spec_fn(int, int) -> bool)
    requires
        is_run(r, 0, r.len() as int),
        !timestamp_shape(r.len() as int, r[0]),
    ensures
        rewritten(r, args, zone, r),
{
    let none = Seq::<Match>::empty();
    let texts = Seq::<Seq<char>>::empty();
    assert forall|a: int, b: int| #[trigger] is_timestamp(r, a, b) && b <= r.len() implies exists|
        k: int,
    |
        0 <= k < none.len() && (#[trigger] none[k]).start == a && none[k].end == b by {
        lemma_runs_meet(r, a, b, 0, r.len() as int, a);
    }
    lemma_nothing_spliced(r, texts);
    assert(fills(r, args, zone, none, texts));
}

/// A run of digits that is no timestamp comes out as it is and where it is,
/// and the text on either side of it is rewritten as it would be alone.
/// Where there is one way only to rewrite, that is the one.
pub proof fn lemma_other_run_in_place(
    p: Seq<char>,
    r: Seq<char>,
    q: Seq<char>,
    args: Args,
    zone: spec_fn(int, int) -> bool,
    op: Seq<char>,
    oq: Seq<char>,
)
    requires
        is_run(p + r + q, p.len() as int, (p.len() + r.len()) as int),
        !timestamp_shape(r.len() as int, r[0]),
        rewritten(p, args, zone, op),
        rewritten(q, args, zone, oq),
        p.len() + r.len() + q.len() <= usize::MAX,
    ensures
        rewritten(p + r + q, args, zone, op + r + oq),
        args.no_highlight && (args.utc || one_offset(zone)) ==> forall|out: Seq<char>|
            rewritten(p + r + q, args, zone, out) ==> out == op + r + oq,
{
    lemma_run_between(p, r, q);
    lemma_other_run_alone(r, args, zone);
    lemma_rewritten_concat(p, r, args, zone, op, r);
    lemma_rewritten_concat(p + r, q, args, zone, op + r, oq);
    if args.no_highlight && (args.utc || one_offset(zone)) {
        assert forall|out: Seq<char>| rewritten(p + r + q, args, zone, out) implies out == op + r
            + oq by {
            lemma_rewritten_once(p + r + q, args, zone, out, op + r + oq);
        }
    }
}

/// A timestamp is rewritten where it is, to what may stand in its place, and
/// the text on either side of it is rewritten as it would be alone. Where
/// there is one way only to rewrite, that is the one.
pub proof fn lemma_timestamp_in_place(
    p: Seq<char>,
    r: Seq<char>,
    q: Seq<char>,
    args: Args,
    zone: spec_fn(int, int) -> bool,
    op: Seq<char>,
    t: Seq<char>,
    oq: Seq<char>,
)
    requires
        is_timestamp(p + r + q, p.len() as int, (p.len() + r.len()) as int),
        rewritten(p, args, zone, op),
        replaces(args, zone, seconds_at(r, 0), r, t),
        rewritten(q, args, zone, oq),
        p.len() + r.len() + q.len() <= usize::MAX,
    ensures
        rewritten(p + r + q, args, zone, op + t + oq),
        args.no_highlight && (args.utc || one_offset(zone)) ==> forall|out: Seq<char>|
            rewritten(p + r + q, args, zone, out) ==> out == op + t + oq,
{
    lemma_run_between(p, r, q);
    lemma_timestamp_alone(r, args, zone, t);
    lemma_rewritten_concat(p, r, args, zone, op, t);
    lemma_rewritten_concat(p + r, q, args, zone, op + t, oq);
    if args.no_highlight && (args.utc || one_offset(zone)) {
        assert forall|out: Seq<char>| rewritten(p + r + q, args, zone, out) implies out == op + t
            + oq by {
            lemma_rewritten_once(p + r + q, args, zone, out, op + t + oq);
        }
    }
}

/// A run of `p + r + q` that is `r` is a run of `r` from end to end, and no
/// run of digits joins it to `p` or to `q`.
proof fn lemma_run_between(p: Seq<char>, r: Seq<char>, q: Seq<char>)
    requires
        is_run(p + r + q, p.len() as int, (p.len() + r.len()) as int),
    ensures
        is_run(r, 0, r.len() as int),
        r[0] == (p + r + q)[p.len() as int],
        apart(p, r),
        apart(p + r, q),
{
    let s = p + r + q;
    let n = p.len() as int;
    assert forall|i: int| 0 <= i < r.len() implies is_digit(#[trigger] r[i]) by {
        assert(s[n + i] == r[i]);
    }
    assert(s[n] == r[0]);
    if n > 0 {
        assert(s[n - 1] == p[n - 1]);
    }
    if q.len() > 0 {
        assert(s[n + r.len()] == q[0]);
    }
    assert((p + r).last() == r.last());
}

/// The zone is less than a day from UTC at every moment.
pub open spec fn within_a_day(zone: spec_fn(int, int) -> bool) -> bool {
    forall|secs: int, offset: int| #[trigger] zone(secs, offset) ==> valid_offset(offset)
}

/// Ten digits and the same ten digits with three more behind them are
/// rewritten to the same text: the three are cut off, not rounded, and none
/// of the thirteen stays.
pub proof fn lemma_millis_rewritten_alike(
    ten: Seq<char>,
    millis: Seq<char>,
    args: Args,
    zone: spec_fn(int, int) -> bool,
    out: Seq<char>,
)
    requires
        is_timestamp(ten, 0, SECONDS_DIGITS as int),
        ten.len() == SECONDS_DIGITS,
        millis.len() == MILLIS_DIGITS - SECONDS_DIGITS,
        forall|i: int| 0 <= i < millis.len() ==> is_digit(#[trigger] millis[i]),
        args.utc || within_a_day(zone),
    ensures
        rewritten(ten, args, zone, out) <==> rewritten(ten + millis, args, zone, out),
{
    let long = ten + millis;
    assert forall|i: int| 0 <= i < long.len() implies is_digit(#[trigger] long[i]) by {
        if i < ten.len() {
            assert(long[i] == ten[i]);
        } else {
            assert(long[i] == millis[i - ten.len()]);
        }
    }
    assert(long[0] == ten[0]);
    assert(is_timestamp(long, 0, long.len() as int));
    assert(long.subrange(0, SECONDS_DIGITS as int) =~= ten.subrange(0, SECONDS_DIGITS as int));
    let secs = seconds_at(ten, 0);
    assert(seconds_at(long, 0) == secs);
    lemma_timestamp_alone(ten, args, zone, out);
    lemma_timestamp_alone(long, args, zone, out);
    if replaces(args, zone, secs, ten, out) {
        let offset = choose|offset: int|
            offset_allowed(args.utc, zone, secs, offset) && #[trigger] replaces_at(
                args,
                offset,
                secs,
                ten,
                out,
            );
        assert(valid_offset(offset));
        assert(replaces_at(args, offset, secs, long, out));
    }
    if replaces(args, zone, secs, long, out) {
        let offset = choose|offset: int|
            offset_allowed(args.utc, zone, secs, offset) && #[trigger] replaces_at(
                args,
                offset,
                secs,
                long,
                out,
            );
        assert(valid_offset(offset));
        assert(replaces_at(args, offset, secs, ten, out));
    }
}

/// Every rewriting of two joined texts that no run of digits joins is a
/// rewriting of the first followed by a rewriting of the second.
pub proof fn lemma_rewritten_split(
    x: Seq<char>,
    y: Seq<char>,
    args: Args,
    zone: spec_fn(int, int) -> bool,
    out: Seq<char>,
)
    requires
        rewritten(x + y, args, zone, out),
        apart(x, y),
        x.len() + y.len() <= usize::MAX,
    ensures
        exists|ox: Seq<char>, oy: Seq<char>|
            rewritten(x, args, zone, ox) && rewritten(y, args, zone, oy) && out == ox + oy,
{
    let s = x + y;
    let n = x.len() as int;
    let (ms, texts) = choose|ms: Seq<Match>, texts: Seq<Seq<char>>|
        fills(s, args, zone, ms, texts) && out == spliced(s, ms, texts);
    let c = lemma_matches_split(x, y, ms);
    let mx = ms.take(c);
    let my = shifted_back(ms.skip(c), n);
    let tx = texts.take(c);
    let ty = texts.skip(c);
    assert(texts =~= tx + ty);
    lemma_matches_in_order(x, mx);
    lemma_matches_in_order(y, my);
    lemma_matches_concat(x, y, mx, my);
    lemma_spliced_concat(x, y, mx, my, tx, ty);
    let all = mx + shifted(my, n);
    assert forall|k: int| 0 <= k < mx.len() implies replaces(
        args,
        zone,
        mx[k].seconds as int,
        mx[k].raw(x),
        #[trigger] tx[k],
    ) by {
        assert(all[k].raw(s) == mx[k].raw(x));
        assert(tx[k] == texts[k]);
        assert(replaces(args, zone, ms[k].seconds as int, ms[k].raw(s), texts[k]));
    }
    assert forall|k: int| 0 <= k < my.len() implies replaces(
        args,
        zone,
        my[k].seconds as int,
        my[k].raw(y),
        #[trigger] ty[k],
    ) by {
        assert(all[mx.len() + k].raw(s) == my[k].raw(y));
        assert(ty[k] == texts[c + k]);
        assert(ms.skip(c)[k] == ms[c + k]);
        assert(replaces(args, zone, ms[c + k].seconds as int, ms[c + k].raw(s), texts[c + k]));
    }
    let ox = spliced(x, mx, tx);
    let oy = spliced(y, my, ty);
    assert(fills(x, args, zone, mx, tx));
    assert(fills(y, args, zone, my, ty));
    assert(rewritten(x, args, zone, ox) && rewritten(y, args, zone, oy) && out == ox + oy);
}

/// Every rewriting of a text around a run of digits that is no timestamp
/// has that run as it is and where it is, between a rewriting of the text
/// before it and a rewriting of the text behind it.
pub proof fn lemma_other_run_taken_apart(
    p: Seq<char>,
    r: Seq<char>,
    q: Seq<char>,
    args: Args,
    zone: spec_fn(int, int) -> bool,
    out: Seq<char>,
)
    requires
        is_run(p + r + q, p.len() as int, (p.len() + r.len()) as int),
        !timestamp_shape(r.len() as int, r[0]),
        rewritten(p + r + q, args, zone, out),
        p.len() + r.len() + q.len() <= usize::MAX,
    ensures
        exists|op: Seq<char>, oq: Seq<char>|
            rewritten(p, args, zone, op) && rewritten(q, args, zone, oq) && out == op + r + oq,
{
    lemma_run_between(p, r, q);
    lemma_rewritten_split(p + r, q, args, zone, out);
    let (opr, oq) = choose|ox: Seq<char>, oy: Seq<char>|
        rewritten(p + r, args, zone, ox) && rewritten(q, args, zone, oy) && out == ox + oy;
    lemma_rewritten_split(p, r, args, zone, opr);
    let (op, or) = choose|ox: Seq<char>, oy: Seq<char>|
        rewritten(p, args, zone, ox) && rewritten(r, args, zone, oy) && opr == ox + oy;
    lemma_other_run_alone(r, args, zone);
    lemma_other_run_only_itself(r, args, zone, or);
    assert(rewritten(p, args, zone, op) && rewritten(q, args, zone, oq) && out == op + r + oq);
}

/// Every rewriting of a text around a timestamp has, in the place of the
/// timestamp, a text that may stand there, between a rewriting of the text
/// before it and a rewriting of the text behind it.
pub proof fn lemma_timestamp_taken_apart(
    p: Seq<char>,
    r: Seq<char>,
    q: Seq<char>,
    args: Args,
    zone: spec_fn(int, int) -> bool,
    out: Seq<char>,
)
    requires
        is_timestamp(p + r + q, p.len() as int, (p.len() + r.len()) as int),
        rewritten(p + r + q, args, zone, out),
        p.len() + r.len() + q.len() <= usize::MAX,
    ensures
        exists|op: Seq<char>, t: Seq<char>, oq: Seq<char>|
            {
                &&& rewritten(p, args, zone, op)
                &&& replaces(args, zone, seconds_at(r, 0), r, t)
                &&& rewritten(q, args, zone, oq)
                &&& out == op + t + oq
            },
{
    lemma_run_between(p, r, q);
    lemma_rewritten_split(p + r, q, args, zone, out);
    let (opr, oq) = choose|ox: Seq<char>, oy: Seq<char>|
        rewritten(p + r, args, zone, ox) && rewritten(q, args, zone, oy) && out == ox + oy;
    lemma_rewritten_split(p, r, args, zone, opr);
    let (op, t) = choose|ox: Seq<char>, oy: Seq<char>|
        rewritten(p, args, zone, ox) && rewritten(r, args, zone, oy) && opr == ox + oy;
    lemma_timestamp_alone(r, args, zone, t);
    assert(rewritten(p, args, zone, op) && replaces(args, zone, seconds_at(r, 0), r, t)
        && rewritten(q, args, zone, oq) && out == op + t + oq);
}

/// A text that is a run of digits from end to end, but no timestamp, is
/// rewritten to nothing but itself.
pub proof fn lemma_other_run_only_itself(
    r: Seq<char>,
    args: Args,
    zone: spec_fn(int, int) -> bool,
    out: Seq<char>,
)
    requires
        is_run(r, 0, r.len() as int),
        !timestamp_shape(r.len() as int, r[0]),
        rewritten(r, args, zone, out),
    ensures
        out == r,
{
    let (ms, texts) = choose|ms: Seq<Match>, texts: Seq<Seq<char>>|
        fills(r, args, zone, ms, texts) && out == spliced(r, ms, texts);
    if ms.len() > 0 {
        assert(ms[0].is_in(r));
        let m = ms[0];
        lemma_runs_meet(r, m.start as int, m.end as int, 0, r.len() as int, m.start as int);
    }
    assert(ms =~= Seq::<Match>::empty());
    lemma_nothing_spliced(r, texts);
}

} // verus!
