//! Finding the timestamps of a text.
//!
//! A text is a sequence of characters. A *run* is a stretch of decimal digits
//! that cannot be made longer at either end. A *timestamp* is a run of ten or
//! thirteen digits whose first digit is `1`; its seconds are the number that
//! its first ten digits spell.

use vstd::prelude::*;

verus! {

/// Number of digits of a timestamp in seconds.
pub const SECONDS_DIGITS: usize = 10;

/// Number of digits of a timestamp in milliseconds.
pub const MILLIS_DIGITS: usize = 13;

/// `c` is one of `0` to `9`.
pub open spec fn is_digit(c: char) -> bool {
    '0' <= c <= '9'
}

/// The number that the digit `c` stands for.
pub open spec fn digit_value(c: char) -> int {
    c as int - '0' as int
}

/// The number that the digits `d` spell in base ten; 0 for no digits.
pub open spec fn decimal(d: Seq<char>) -> int
    decreases d.len(),
{
    if d.len() == 0 {
        0
    } else {
        decimal(d.drop_last()) * 10 + digit_value(d.last())
    }
}

/// Every character of `d` is a digit.
pub open spec fn all_digits(d: Seq<char>) -> bool {
    forall|i: int| 0 <= i < d.len() ==> is_digit(#[trigger] d[i])
}

/// `s[a..b]` is a run: digits only, not empty, and with no digit next to it
/// on either side.
pub open spec fn is_run(s: Seq<char>, a: int, b: int) -> bool {
    &&& 0 <= a < b <= s.len()
    &&& forall|i: int| a <= i < b ==> is_digit(#[trigger] s[i])
    &&& (a == 0 || !is_digit(s[a - 1]))
    &&& (b == s.len() || !is_digit(s[b]))
}

/// A run of `len` digits that starts with `first` has the shape of a
/// timestamp.
pub open spec fn timestamp_shape(len: int, first: char) -> bool {
    (len == SECONDS_DIGITS || len == MILLIS_DIGITS) && first == '1'
}

/// `s[a..b]` is a timestamp.
pub open spec fn is_timestamp(s: Seq<char>, a: int, b: int) -> bool {
    is_run(s, a, b) && timestamp_shape(b - a, s[a])
}

/// The seconds of the timestamp that starts at `a`: what its first ten digits
/// spell. The three digits of a millisecond timestamp that follow are left
/// out, not rounded.
pub open spec fn seconds_at(s: Seq<char>, a: int) -> int {
    decimal(s.subrange(a, a + SECONDS_DIGITS))
}

/// One timestamp found in a text.
#[derive(Clone, Copy, Debug, PartialEq, Eq, Structural)]
pub struct Match {
    /// Index of its first digit.
    pub start: usize,
    /// Index just behind its last digit.
    pub end: usize,
    /// Seconds since the epoch.
    pub seconds: i64,
}

impl Match {
    /// `self` is a timestamp of `s`, with its seconds.
    pub open spec fn is_in(self, s: Seq<char>) -> bool {
        &&& is_timestamp(s, self.start as int, self.end as int)
        &&& self.seconds == seconds_at(s, self.start as int)
    }

    /// The digits of the timestamp as they stand in `s`.
    pub open spec fn raw(self, s: Seq<char>) -> Seq<char> {
        s.subrange(self.start as int, self.end as int)
    }
}

/// `ms` lists timestamps of `s` from left to right, none twice.
pub open spec fn ordered_matches(s: Seq<char>, ms: Seq<Match>) -> bool {
    &&& forall|k: int| 0 <= k < ms.len() ==> (#[trigger] ms[k]).is_in(s)
    &&& forall|j: int, k: int|
        0 <= j < k < ms.len() ==> (#[trigger] ms[j]).end <= (#[trigger] ms[k]).start
}

/// `ms` holds every timestamp of `s` that ends at or before `upto`.
pub open spec fn covers(s: Seq<char>, ms: Seq<Match>, upto: int) -> bool {
    forall|a: int, b: int| #[trigger]
        is_timestamp(s, a, b) && b <= upto ==> exists|k: int|
            0 <= k < ms.len() && (#[trigger] ms[k]).start == a && ms[k].end == b
}

/// `ms` is the list of all timestamps of `s`, from left to right.
pub open spec fn matches_of(s: Seq<char>, ms: Seq<Match>) -> bool {
    ordered_matches(s, ms) && covers(s, ms, s.len() as int)
}

/// The seconds of a timestamp lie between 1 000 000 000 and 1 999 999 999.
pub open spec fn plausible_seconds(secs: int) -> bool {
    1_000_000_000 <= secs <= 1_999_999_999
}

/// Ten to the power `n`.
pub open spec fn pow10(n: nat) -> int
    decreases n,
{
    if n == 0 {
        1
    } else {
        10 * pow10((n - 1) as nat)
    }
}

/// What digits spell is not negative and is below ten to the power of their
/// number.
pub proof fn lemma_decimal_bounds(d: Seq<char>)
    requires
        all_digits(d),
    ensures
        0 <= decimal(d) < pow10(d.len()),
    decreases d.len(),
{
    if d.len() > 0 {
        let front = d.drop_last();
        assert forall|i: int| 0 <= i < front.len() implies is_digit(#[trigger] front[i]) by {
            assert(front[i] == d[i]);
        }
        lemma_decimal_bounds(front);
        assert(is_digit(d[d.len() - 1]));
    }
}

/// Digits written behind others shift them to the left:
/// `decimal(d + e) == decimal(d) * 10^|e| + decimal(e)`.
pub proof fn lemma_decimal_concat(d: Seq<char>, e: Seq<char>)
    ensures
        decimal(d + e) == decimal(d) * pow10(e.len()) + decimal(e),
    decreases e.len(),
{
    if e.len() == 0 {
        assert(d + e =~= d);
        assert(pow10(e.len()) == 1);
        assert(decimal(d) * pow10(e.len()) == decimal(d)) by (nonlinear_arith)
            requires
                pow10(e.len()) == 1,
        ;
    } else {
        let front = e.drop_last();
        assert((d + e).drop_last() =~= d + front);
        assert((d + e).last() == e.last());
        lemma_decimal_concat(d, front);
        let x = decimal(d);
        let p = pow10(front.len());
        let y = decimal(front);
        assert(decimal(d + e) == decimal(d + front) * 10 + digit_value(e.last()));
        assert(decimal(e) == y * 10 + digit_value(e.last()));
        assert(pow10(e.len()) == 10 * p);
        let q = pow10(e.len());
        assert((x * p + y) * 10 == x * q + y * 10) by (nonlinear_arith)
            requires
                q == 10 * p,
        ;
        assert(decimal(d + e) == x * q + decimal(e));
    }
}

/// A number of ten digits whose first digit is `1` lies between
/// 1 000 000 000 and 1 999 999 999.
pub proof fn lemma_seconds_plausible(d: Seq<char>)
    requires
        d.len() == SECONDS_DIGITS,
        all_digits(d),
        d[0] == '1',
    ensures
        plausible_seconds(decimal(d)),
{
    let head = d.subrange(0, 1);
    let tail = d.subrange(1, 10);
    assert(d =~= head + tail);
    lemma_decimal_concat(head, tail);
    assert forall|i: int| 0 <= i < tail.len() implies is_digit(#[trigger] tail[i]) by {
        assert(tail[i] == d[i + 1]);
    }
    lemma_decimal_bounds(tail);
    assert(head.drop_last() =~= Seq::<char>::empty());
    assert(decimal(head.drop_last()) == 0);
    assert(decimal(head) == 1);
    assert(pow10(9) == 1_000_000_000) by {
        reveal_with_fuel(pow10, 10);
    }
}

/// Two runs of one text that share a position are the same run.
pub proof fn lemma_runs_meet(s: Seq<char>, a1: int, b1: int, a2: int, b2: int, p: int)
    requires
        is_run(s, a1, b1),
        is_run(s, a2, b2),
        a1 <= p < b1,
        a2 <= p < b2,
    ensures
        a1 == a2,
        b1 == b2,
{
    if a1 < a2 {
        assert(is_digit(s[a2 - 1]));
    }
    if a2 < a1 {
        assert(is_digit(s[a1 - 1]));
    }
    if b1 < b2 {
        assert(is_digit(s[b1]));
    }
    if b2 < b1 {
        assert(is_digit(s[b2]));
    }
}

/// A text has one list of all its timestamps and no other.
pub proof fn lemma_matches_unique(s: Seq<char>, ms1: Seq<Match>, ms2: Seq<Match>)
    requires
        matches_of(s, ms1),
        matches_of(s, ms2),
    ensures
        ms1 == ms2,
{
    lemma_matches_agree(s, ms1, ms2, ms1.len() as int);
    lemma_matches_agree(s, ms2, ms1, ms2.len() as int);
    assert(ms1.len() == ms2.len());
    assert forall|k: int| 0 <= k < ms1.len() implies ms1[k] == ms2[k] by {
        lemma_matches_agree(s, ms1, ms2, k + 1);
    }
    assert(ms1 =~= ms2);
}

/// The first `n` entries of one full list are the first `n` of any other.
proof fn lemma_matches_agree(s: Seq<char>, ms1: Seq<Match>, ms2: Seq<Match>, n: int)
    requires
        matches_of(s, ms1),
        matches_of(s, ms2),
        0 <= n <= ms1.len(),
    ensures
        n <= ms2.len(),
        forall|k: int| 0 <= k < n ==> ms1[k] == ms2[k],
    decreases n,
{
    if n > 0 {
        lemma_matches_agree(s, ms1, ms2, n - 1);
        let m = ms1[n - 1];
        assert(m.is_in(s));
        assert(is_timestamp(s, m.start as int, m.end as int));
        let k2 = choose|k: int|
            0 <= k < ms2.len() && (#[trigger] ms2[k]).start == m.start && ms2[k].end == m.end;
        assert(ms2[k2].is_in(s));
        assert(ms2[k2] == m);
        // k2 is not among the first n - 1, which are taken by earlier matches.
        if k2 < n - 1 {
            assert(ms1[k2] == ms2[k2]);
            assert(ms1[k2].end <= ms1[n - 1].start);
        }
        // Nor is it behind n - 1: the entry of ms2 at n - 1 would then have
        // to stand in ms1 before index n - 1.
        if k2 > n - 1 {
            let other = ms2[n - 1];
            assert(other.is_in(s));
            assert(other.end <= ms2[k2].start);
            assert(is_timestamp(s, other.start as int, other.end as int));
            let k1 = choose|k: int|
                0 <= k < ms1.len() && (#[trigger] ms1[k]).start == other.start && ms1[k].end
                    == other.end;
            assert(ms1[k1].is_in(s));
            if k1 < n - 1 {
                assert(ms1[k1] == ms2[k1]);
                assert(ms2[k1].end <= ms2[n - 1].start);
            } else if k1 > n - 1 {
                assert(ms1[n - 1].end <= ms1[k1].start);
            }
        }
    }
}

/// Three more digits behind ten are cut off, not rounded: the thirteen
/// digits divided by 1000, without the remainder, are the ten.
pub proof fn lemma_millis_cut_off(d: Seq<char>, e: Seq<char>)
    requires
        d.len() == SECONDS_DIGITS,
        e.len() == MILLIS_DIGITS - SECONDS_DIGITS,
        all_digits(e),
    ensures
        decimal(d + e) / 1000 == decimal(d),
        (d + e).subrange(0, SECONDS_DIGITS as int) == d,
{
    lemma_decimal_concat(d, e);
    lemma_decimal_bounds(e);
    assert(pow10(3) == 1000) by {
        reveal_with_fuel(pow10, 4);
    }
    let x = decimal(d);
    let y = decimal(e);
    assert((x * 1000 + y) / 1000 == x) by (nonlinear_arith)
        requires
            0 <= y < 1000,
    ;
    assert((d + e).subrange(0, SECONDS_DIGITS as int) =~= d);
}

/// A timestamp of thirteen digits has the seconds of the timestamp that its
/// first ten digits make, whatever the last three are.
pub proof fn lemma_millis_read_as_seconds(s1: Seq<char>, a1: int, s2: Seq<char>, a2: int)
    requires
        is_timestamp(s1, a1, a1 + SECONDS_DIGITS),
        is_timestamp(s2, a2, a2 + MILLIS_DIGITS),
        s2.subrange(a2, a2 + SECONDS_DIGITS) == s1.subrange(a1, a1 + SECONDS_DIGITS),
    ensures
        seconds_at(s2, a2) == seconds_at(s1, a1),
        seconds_at(s2, a2) == decimal(s2.subrange(a2, a2 + MILLIS_DIGITS)) / 1000,
        plausible_seconds(seconds_at(s2, a2)),
{
    let d = s2.subrange(a2, a2 + SECONDS_DIGITS);
    let e = s2.subrange(a2 + SECONDS_DIGITS, a2 + MILLIS_DIGITS);
    assert(s2.subrange(a2, a2 + MILLIS_DIGITS) =~= d + e);
    assert forall|i: int| 0 <= i < e.len() implies is_digit(#[trigger] e[i]) by {
        assert(e[i] == s2[a2 + SECONDS_DIGITS + i]);
    }
    lemma_millis_cut_off(d, e);
    assert forall|i: int| 0 <= i < d.len() implies is_digit(#[trigger] d[i]) by {
        assert(d[i] == s2[a2 + i]);
    }
    assert(d[0] == s2[a2]);
    lemma_seconds_plausible(d);
}

/// Powers of ten grow with the exponent.
pub proof fn lemma_pow10_grows(a: nat, b: nat)
    requires
        a <= b,
    ensures
        0 < pow10(a) <= pow10(b),
    decreases b,
{
    if b == 0 {
    } else if a == b {
        lemma_pow10_grows((a - 1) as nat, (b - 1) as nat);
    } else {
        lemma_pow10_grows(a, (b - 1) as nat);
    }
}

/// Whether `c` is one of `0` to `9`.
pub fn digit(c: char) -> (r: bool)
    ensures
        r == is_digit(c),
{
    '0' <= c && c <= '9'
}

/// The seconds of the timestamp of `s` that starts at `start`.
fn read_seconds(s: &[char], start: usize) -> (v: i64)
    requires
        start + SECONDS_DIGITS <= s.len(),
        forall|i: int| start <= i < start + SECONDS_DIGITS ==> is_digit(#[trigger] s@[i]),
    ensures
        v == seconds_at(s@, start as int),
{
    let mut v: i64 = 0;
    let mut i: usize = 0;
    while i < SECONDS_DIGITS
        invariant
            i <= SECONDS_DIGITS,
            start + SECONDS_DIGITS <= s.len(),
            forall|i: int| start <= i < start + SECONDS_DIGITS ==> is_digit(#[trigger] s@[i]),
            v == decimal(s@.subrange(start as int, start + i)),
            0 <= v < pow10(i as nat),
        decreases SECONDS_DIGITS - i,
    {
        let c = s[start + i];
        proof {
            let before = s@.subrange(start as int, start + i);
            let after = s@.subrange(start as int, start + i + 1);
            assert(after.drop_last() =~= before);
            assert(after.last() == c);
            assert(is_digit(s@[start + i]));
            lemma_pow10_grows(i as nat, 9);
            assert(pow10(9) == 1_000_000_000) by {
                reveal_with_fuel(pow10, 10);
            }
        }
        v = v * 10 + (c as u32 - '0' as u32) as i64;
        i += 1;
    }
    v
}

/// Lists the timestamps of `s`, from left to right.
///
/// The result holds every timestamp of `s` and nothing else: a run of digits
/// of another length, or one that does not start with `1`, is not in it.
pub fn find_timestamps(s: &[char]) -> (ms: Vec<Match>)
    ensures
        matches_of(s@, ms@),
{
    let n = s.len();
    let mut ms: Vec<Match> = Vec::new();
    let mut i: usize = 0;
    while i < n
        invariant
            n == s.len(),
            i <= n,
            i == 0 || i == n || !is_digit(s@[i - 1]) || !is_digit(s@[i as int]),
            ordered_matches(s@, ms@),
            forall|k: int| 0 <= k < ms.len() ==> (#[trigger] ms@[k]).end <= i,
            covers(s@, ms@, i as int),
        decreases n - i,
    {
        if !digit(s[i]) {
            assert forall|a: int, b: int| #[trigger]
                is_timestamp(s@, a, b) && b <= i + 1 implies exists|k: int|
                0 <= k < ms.len() && (#[trigger] ms@[k]).start == a && ms@[k].end == b by {
                if b == i + 1 {
                    assert(is_digit(s@[b - 1]));
                }
            }
            i += 1;
        } else {
            let start = i;
            let mut end = i + 1;
            while end < n && digit(s[end])
                invariant
                    n == s.len(),
                    start < end <= n,
                    forall|p: int| start <= p < end ==> is_digit(#[trigger] s@[p]),
                decreases n - end,
            {
                end += 1;
            }
            assert(is_run(s@, start as int, end as int));
            let ghost before = ms@;
            let len = end - start;
            if (len == SECONDS_DIGITS || len == MILLIS_DIGITS) && s[start] == '1' {
                let seconds = read_seconds(s, start);
                ms.push(Match { start, end, seconds });
                assert(ms@[before.len() as int].is_in(s@));
            }
            proof {
                assert forall|k: int| 0 <= k < before.len() implies ms@[k] == before[k] by {}
                assert forall|a: int, b: int| #[trigger]
                    is_timestamp(s@, a, b) && b <= end implies exists|k: int|
                    0 <= k < ms.len() && (#[trigger] ms@[k]).start == a && ms@[k].end == b by {
                    if b <= start {
                        let k = choose|k: int|
                            0 <= k < before.len() && (#[trigger] before[k]).start == a
                                && before[k].end == b;
                        assert(ms@[k].start == a && ms@[k].end == b);
                    } else {
                        lemma_runs_meet(s@, a, b, start as int, end as int, b - 1);
                        assert(ms@[before.len() as int].start == a);
                    }
                }
            }
            i = end;
        }
    }
    ms
}

} // verus!
