//! Putting new texts in the place of the timestamps of a text.

use crate::chars::push_range;
use crate::scan::{
    is_digit, is_run, is_timestamp, lemma_runs_meet, matches_of, seconds_at, timestamp_shape, Match,
    SECONDS_DIGITS,
};
use vstd::prelude::*;
use vstd::string::StringExecFns;

verus! {

/// The stretches `ms` lie in `s` from left to right without overlap.
pub open spec fn in_order(s: Seq<char>, ms: Seq<Match>) -> bool {
    &&& forall|k: int| 0 <= k < ms.len() ==> (#[trigger] ms[k]).start <= ms[k].end <= s.len()
    &&& forall|j: int, k: int|
        0 <= j < k < ms.len() ==> (#[trigger] ms[j]).end <= (#[trigger] ms[k]).start
}

/// The views of `texts`, one for one.
pub open spec fn views(texts: Seq<String>) -> Seq<Seq<char>> {
    Seq::new(texts.len(), |k: int| texts[k]@)
}

/// `s` from `pos` on, with `texts[k]` in the place of `ms[k]`, and likewise
/// for every later stretch.
pub open spec fn spliced_from(
    s: Seq<char>,
    ms: Seq<Match>,
    texts: Seq<Seq<char>>,
    k: int,
    pos: int,
) -> Seq<char>
    decreases ms.len() - k,
{
    if 0 <= k < ms.len() && k < texts.len() {
        s.subrange(pos, ms[k].start as int) + texts[k] + spliced_from(
            s,
            ms,
            texts,
            k + 1,
            ms[k].end as int,
        )
    } else {
        s.subrange(pos, s.len() as int)
    }
}

/// `s` with `texts[k]` in the place of `ms[k]` for every `k`, and everything
/// between the stretches as it was.
pub open spec fn spliced(s: Seq<char>, ms: Seq<Match>, texts: Seq<Seq<char>>) -> Seq<char> {
    spliced_from(s, ms, texts, 0, 0)
}

/// Where the character `s[a]` stands in `spliced_from(s, ms, texts, k, pos)`,
/// for a position `a` at or behind `pos` that lies in none of the stretches.
pub open spec fn landing_from(
    ms: Seq<Match>,
    texts: Seq<Seq<char>>,
    k: int,
    pos: int,
    a: int,
) -> int
    decreases ms.len() - k,
{
    if 0 <= k < ms.len() && k < texts.len() && ms[k].end <= a {
        (ms[k].start - pos) + texts[k].len() + landing_from(ms, texts, k + 1, ms[k].end as int, a)
    } else {
        a - pos
    }
}

/// Where the character `s[a]` stands in `spliced(s, ms, texts)`.
pub open spec fn landing(ms: Seq<Match>, texts: Seq<Seq<char>>, a: int) -> int {
    landing_from(ms, texts, 0, 0, a)
}

/// Builds `s` with `texts[k]` in the place of `ms[k]`.
pub fn substitute(s: &[char], ms: &[Match], texts: &[String]) -> (out: String)
    requires
        in_order(s@, ms@),
        texts.len() == ms.len(),
    ensures
        out@ == spliced(s@, ms@, views(texts@)),
{
    let ghost tv = views(texts@);
    let mut out = String::new();
    let mut pos: usize = 0;
    let mut k: usize = 0;
    while k < ms.len()
        invariant
            in_order(s@, ms@),
            texts.len() == ms.len(),
            tv == views(texts@),
            k <= ms.len(),
            pos <= s.len(),
            forall|j: int| k <= j < ms.len() ==> pos <= (#[trigger] ms@[j]).start,
            out@ + spliced_from(s@, ms@, tv, k as int, pos as int) =~= spliced(s@, ms@, tv),
        decreases ms.len() - k,
    {
        let m = ms[k];
        assert(ms@[k as int].start <= ms@[k as int].end <= s.len());
        push_range(&mut out, s, pos, m.start);
        out.append(texts[k].as_str());
        assert(tv[k as int] == texts@[k as int]@);
        assert forall|j: int| k + 1 <= j < ms.len() implies m.end <= (#[trigger] ms@[j]).start by {
            assert(ms@[k as int].end <= ms@[j].start);
        }
        pos = m.end;
        k += 1;
    }
    push_range(&mut out, s, pos, s.len());
    out
}

/// With nothing to replace the text stays as it is.
pub proof fn lemma_nothing_spliced(s: Seq<char>, texts: Seq<Seq<char>>)
    ensures
        spliced(s, Seq::<Match>::empty(), texts) == s,
{
    assert(s.subrange(0, s.len() as int) =~= s);
}

/// A stretch of the text that meets none of the replaced stretches stands in
/// the result as it stood in the text, at the place that `landing_from`
/// gives.
pub proof fn lemma_kept_from(
    s: Seq<char>,
    ms: Seq<Match>,
    texts: Seq<Seq<char>>,
    k: int,
    pos: int,
    a: int,
    b: int,
)
    requires
        in_order(s, ms),
        texts.len() == ms.len(),
        0 <= k <= ms.len(),
        0 <= pos <= a <= b <= s.len(),
        forall|j: int| k <= j < ms.len() ==> pos <= (#[trigger] ms[j]).start,
        forall|j: int| 0 <= j < ms.len() ==> (#[trigger] ms[j]).end <= a || b <= ms[j].start,
    ensures
        0 <= landing_from(ms, texts, k, pos, a),
        landing_from(ms, texts, k, pos, a) + (b - a) <= spliced_from(s, ms, texts, k, pos).len(),
        spliced_from(s, ms, texts, k, pos).subrange(
            landing_from(ms, texts, k, pos, a),
            landing_from(ms, texts, k, pos, a) + (b - a),
        ) == s.subrange(a, b),
    decreases ms.len() - k,
{
    let whole = spliced_from(s, ms, texts, k, pos);
    if k < ms.len() {
        let m = ms[k];
        assert(m.start <= m.end <= s.len());
        let gap = s.subrange(pos, m.start as int);
        let rest = spliced_from(s, ms, texts, k + 1, m.end as int);
        assert(whole == gap + texts[k] + rest);
        if m.end <= a {
            assert forall|j: int| k + 1 <= j < ms.len() implies m.end <= (#[trigger] ms[j]).start
            by {
                assert(ms[k].end <= ms[j].start);
            }
            lemma_kept_from(s, ms, texts, k + 1, m.end as int, a, b);
            let inner = landing_from(ms, texts, k + 1, m.end as int, a);
            let shift = gap.len() + texts[k].len();
            assert(whole.subrange(shift + inner, shift + inner + (b - a)) =~= rest.subrange(
                inner,
                inner + (b - a),
            ));
        } else {
            assert(b <= m.start);
            assert(whole.subrange(a - pos, b - pos) =~= s.subrange(a, b));
        }
    } else {
        assert(whole.subrange(a - pos, b - pos) =~= s.subrange(a, b));
    }
}

/// A stretch of the text that meets none of the replaced stretches stands in
/// the result as it stood in the text.
pub proof fn lemma_kept(s: Seq<char>, ms: Seq<Match>, texts: Seq<Seq<char>>, a: int, b: int)
    requires
        in_order(s, ms),
        texts.len() == ms.len(),
        0 <= a <= b <= s.len(),
        forall|j: int| 0 <= j < ms.len() ==> (#[trigger] ms[j]).end <= a || b <= ms[j].start,
    ensures
        0 <= landing(ms, texts, a),
        landing(ms, texts, a) + (b - a) <= spliced(s, ms, texts).len(),
        spliced(s, ms, texts).subrange(landing(ms, texts, a), landing(ms, texts, a) + (b - a))
            == s.subrange(a, b),
{
    lemma_kept_from(s, ms, texts, 0, 0, a, b);
}

/// The list of all timestamps of a text lies in it in order.
pub proof fn lemma_matches_in_order(s: Seq<char>, ms: Seq<Match>)
    requires
        matches_of(s, ms),
    ensures
        in_order(s, ms),
{
    assert forall|k: int| 0 <= k < ms.len() implies (#[trigger] ms[k]).start <= ms[k].end
        <= s.len() by {
        assert(ms[k].is_in(s));
    }
}

/// A run of digits that has not the shape of a timestamp stands in the
/// result as it stood in the text, whatever was put in the place of the
/// timestamps.
pub proof fn lemma_other_runs_kept(
    s: Seq<char>,
    ms: Seq<Match>,
    texts: Seq<Seq<char>>,
    a: int,
    b: int,
)
    requires
        matches_of(s, ms),
        texts.len() == ms.len(),
        is_run(s, a, b),
        !timestamp_shape(b - a, s[a]),
    ensures
        0 <= landing(ms, texts, a),
        landing(ms, texts, a) + (b - a) <= spliced(s, ms, texts).len(),
        spliced(s, ms, texts).subrange(landing(ms, texts, a), landing(ms, texts, a) + (b - a))
            == s.subrange(a, b),
{
    lemma_matches_in_order(s, ms);
    assert forall|j: int| 0 <= j < ms.len() implies (#[trigger] ms[j]).end <= a || b
        <= ms[j].start by {
        let m = ms[j];
        assert(m.is_in(s));
        if a < m.end && m.start < b {
            let p = if a <= m.start { m.start as int } else { a };
            lemma_runs_meet(s, a, b, m.start as int, m.end as int, p);
        }
    }
    lemma_kept(s, ms, texts, a, b);
}

/// A text without a digit has no timestamp.
pub proof fn lemma_no_digit_no_match(s: Seq<char>, ms: Seq<Match>)
    requires
        matches_of(s, ms),
        forall|i: int| 0 <= i < s.len() ==> !is_digit(#[trigger] s[i]),
    ensures
        ms.len() == 0,
{
    if ms.len() > 0 {
        assert(ms[0].is_in(s));
        assert(is_digit(s[ms[0].start as int]));
    }
}

/// `ms` moved `n` places to the right.
pub open spec fn shifted(ms: Seq<Match>, n: int) -> Seq<Match> {
    Seq::new(
        ms.len(),
        |k: int|
            Match {
                start: (ms[k].start + n) as usize,
                end: (ms[k].end + n) as usize,
                seconds: ms[k].seconds,
            },
    )
}

/// No run of digits reaches from the end of `x` into the beginning of `y`.
pub open spec fn apart(x: Seq<char>, y: Seq<char>) -> bool {
    x.len() == 0 || y.len() == 0 || !is_digit(x.last()) || !is_digit(y[0])
}

/// The text from `pos` on may be taken in two steps, as long as the first
/// ends before the next stretch that is replaced.
pub proof fn lemma_spliced_in_steps(
    s: Seq<char>,
    ms: Seq<Match>,
    texts: Seq<Seq<char>>,
    k: int,
    pos: int,
    mid: int,
)
    requires
        in_order(s, ms),
        texts.len() == ms.len(),
        0 <= k <= ms.len(),
        0 <= pos <= mid <= s.len(),
        k < ms.len() ==> mid <= ms[k].start,
    ensures
        spliced_from(s, ms, texts, k, pos) == s.subrange(pos, mid) + spliced_from(
            s,
            ms,
            texts,
            k,
            mid,
        ),
{
    if k < ms.len() {
        let m = ms[k];
        assert(m.start <= m.end <= s.len());
        let rest = spliced_from(s, ms, texts, k + 1, m.end as int);
        assert(s.subrange(pos, m.start as int) + texts[k] + rest =~= s.subrange(pos, mid) + (
        s.subrange(mid, m.start as int) + texts[k] + rest));
    } else {
        assert(s.subrange(pos, s.len() as int) =~= s.subrange(pos, mid) + s.subrange(
            mid,
            s.len() as int,
        ));
    }
}

/// Stretches of `x` followed by stretches of `y`, moved behind `x`, lie in
/// `x + y` in order.
pub proof fn lemma_in_order_concat(x: Seq<char>, y: Seq<char>, mx: Seq<Match>, my: Seq<Match>)
    requires
        in_order(x, mx),
        in_order(y, my),
        x.len() + y.len() <= usize::MAX,
    ensures
        in_order(x + y, mx + shifted(my, x.len() as int)),
{
    let n = x.len() as int;
    let all = mx + shifted(my, n);
    assert forall|k: int| 0 <= k < all.len() implies (#[trigger] all[k]).start <= all[k].end <= (x
        + y).len() by {
        if k < mx.len() {
            assert(all[k] == mx[k]);
        } else {
            assert(my[k - mx.len()].start <= my[k - mx.len()].end <= y.len());
        }
    }
    assert forall|j: int, k: int| 0 <= j < k < all.len() implies (#[trigger] all[j]).end <= (
    #[trigger] all[k]).start by {
        if k < mx.len() {
            assert(mx[j].end <= mx[k].start);
        } else if j < mx.len() {
            assert(mx[j].start <= mx[j].end <= x.len());
            assert(my[k - mx.len()].start <= my[k - mx.len()].end <= y.len());
        } else {
            assert(my[j - mx.len()].end <= my[k - mx.len()].start);
            assert(my[j - mx.len()].start <= my[j - mx.len()].end <= y.len());
            assert(my[k - mx.len()].start <= my[k - mx.len()].end <= y.len());
        }
    }
}

/// Behind `x`, the text `x + y` is spliced as `y` is alone.
proof fn lemma_spliced_tail(
    x: Seq<char>,
    y: Seq<char>,
    mx: Seq<Match>,
    my: Seq<Match>,
    tx: Seq<Seq<char>>,
    ty: Seq<Seq<char>>,
    j: int,
    q: int,
)
    requires
        in_order(y, my),
        tx.len() == mx.len(),
        ty.len() == my.len(),
        x.len() + y.len() <= usize::MAX,
        0 <= j <= my.len(),
        0 <= q <= y.len(),
        forall|i: int| j <= i < my.len() ==> q <= (#[trigger] my[i]).start,
    ensures
        spliced_from(
            x + y,
            mx + shifted(my, x.len() as int),
            tx + ty,
            mx.len() + j,
            x.len() + q,
        ) == spliced_from(y, my, ty, j, q),
    decreases my.len() - j,
{
    let n = x.len() as int;
    let all = mx + shifted(my, n);
    let texts = tx + ty;
    if j < my.len() {
        let m = my[j];
        assert(m.start <= m.end <= y.len());
        assert(all[mx.len() + j] == shifted(my, n)[j]);
        assert(texts[mx.len() + j] == ty[j]);
        assert forall|i: int| j + 1 <= i < my.len() implies m.end <= (#[trigger] my[i]).start by {
            assert(my[j].end <= my[i].start);
        }
        lemma_spliced_tail(x, y, mx, my, tx, ty, j + 1, m.end as int);
        assert((x + y).subrange(n + q, n + m.start) =~= y.subrange(q, m.start as int));
    } else {
        assert((x + y).subrange(n + q, (x + y).len() as int) =~= y.subrange(q, y.len() as int));
    }
}

/// Within `x`, the text `x + y` is spliced as `x` is alone, and `y` spliced
/// alone follows.
proof fn lemma_spliced_head(
    x: Seq<char>,
    y: Seq<char>,
    mx: Seq<Match>,
    my: Seq<Match>,
    tx: Seq<Seq<char>>,
    ty: Seq<Seq<char>>,
    k: int,
    pos: int,
)
    requires
        in_order(x, mx),
        in_order(y, my),
        tx.len() == mx.len(),
        ty.len() == my.len(),
        x.len() + y.len() <= usize::MAX,
        0 <= k <= mx.len(),
        0 <= pos <= x.len(),
        forall|i: int| k <= i < mx.len() ==> pos <= (#[trigger] mx[i]).start,
    ensures
        spliced_from(x + y, mx + shifted(my, x.len() as int), tx + ty, k, pos) == spliced_from(
            x,
            mx,
            tx,
            k,
            pos,
        ) + spliced(y, my, ty),
    decreases mx.len() - k,
{
    let n = x.len() as int;
    let all = mx + shifted(my, n);
    let texts = tx + ty;
    if k < mx.len() {
        let m = mx[k];
        assert(m.start <= m.end <= x.len());
        assert(all[k] == mx[k]);
        assert(texts[k] == tx[k]);
        assert forall|i: int| k + 1 <= i < mx.len() implies m.end <= (#[trigger] mx[i]).start by {
            assert(mx[k].end <= mx[i].start);
        }
        lemma_spliced_head(x, y, mx, my, tx, ty, k + 1, m.end as int);
        assert((x + y).subrange(pos, m.start as int) =~= x.subrange(pos, m.start as int));
        let rest = spliced_from(x, mx, tx, k + 1, m.end as int);
        let gap = x.subrange(pos, m.start as int);
        assert(gap + tx[k] + (rest + spliced(y, my, ty)) =~= (gap + tx[k] + rest) + spliced(
            y,
            my,
            ty,
        ));
    } else {
        lemma_in_order_concat(x, y, mx, my);
        if my.len() > 0 {
            assert(all[k] == shifted(my, n)[0]);
        }
        lemma_spliced_in_steps(x + y, all, texts, k, pos, n);
        lemma_spliced_tail(x, y, mx, my, tx, ty, 0, 0);
        assert((x + y).subrange(pos, n) =~= x.subrange(pos, n));
    }
}

/// Two texts spliced one after the other are their concatenation spliced,
/// with the stretches of the second moved behind the first.
pub proof fn lemma_spliced_concat(
    x: Seq<char>,
    y: Seq<char>,
    mx: Seq<Match>,
    my: Seq<Match>,
    tx: Seq<Seq<char>>,
    ty: Seq<Seq<char>>,
)
    requires
        in_order(x, mx),
        in_order(y, my),
        tx.len() == mx.len(),
        ty.len() == my.len(),
        x.len() + y.len() <= usize::MAX,
    ensures
        spliced(x + y, mx + shifted(my, x.len() as int), tx + ty) == spliced(x, mx, tx) + spliced(
            y,
            my,
            ty,
        ),
{
    lemma_spliced_head(x, y, mx, my, tx, ty, 0, 0);
}

/// The timestamps of two texts that no run of digits joins are, one list
/// after the other, the timestamps of the two texts joined.
pub proof fn lemma_matches_concat(x: Seq<char>, y: Seq<char>, mx: Seq<Match>, my: Seq<Match>)
    requires
        matches_of(x, mx),
        matches_of(y, my),
        apart(x, y),
        x.len() + y.len() <= usize::MAX,
    ensures
        matches_of(x + y, mx + shifted(my, x.len() as int)),
        forall|k: int|
            0 <= k < mx.len() ==> (#[trigger] (mx + shifted(my, x.len() as int))[k]).raw(x + y)
                == mx[k].raw(x),
        forall|k: int|
            0 <= k < my.len() ==> (#[trigger] (mx + shifted(my, x.len() as int))[mx.len()
                + k]).raw(x + y) == my[k].raw(y),
{
    let n = x.len() as int;
    let s = x + y;
    let all = mx + shifted(my, n);
    lemma_matches_in_order(x, mx);
    lemma_matches_in_order(y, my);
    lemma_in_order_concat(x, y, mx, my);
    assert forall|k: int| 0 <= k < all.len() implies (#[trigger] all[k]).is_in(s) by {
        if k < mx.len() {
            let m = mx[k];
            assert(all[k] == m);
            assert(m.is_in(x));
            lemma_timestamp_of_head(x, y, m.start as int, m.end as int);
        } else {
            let m = my[k - mx.len()];
            assert(m.is_in(y));
            assert(m.start <= m.end <= y.len());
            assert(all[k].start == m.start + n && all[k].end == m.end + n);
            lemma_timestamp_of_tail(x, y, m.start as int, m.end as int);
        }
    }
    assert forall|a: int, b: int| #[trigger] is_timestamp(s, a, b) && b <= s.len() implies exists|
        k: int,
    |
        0 <= k < all.len() && (#[trigger] all[k]).start == a && all[k].end == b by {
        lemma_timestamp_on_one_side(x, y, a, b);
        if b <= n {
            let k = choose|k: int|
                0 <= k < mx.len() && (#[trigger] mx[k]).start == a && mx[k].end == b;
            assert(all[k] == mx[k]);
        } else {
            let k = choose|k: int|
                0 <= k < my.len() && (#[trigger] my[k]).start == a - n && my[k].end == b - n;
            assert(my[k].start <= my[k].end <= y.len());
            assert(all[mx.len() + k].start == a && all[mx.len() + k].end == b);
        }
    }
    assert forall|k: int| 0 <= k < mx.len() implies (#[trigger] all[k]).raw(s) == mx[k].raw(x) by {
        assert(mx[k].start <= mx[k].end <= x.len());
        assert(all[k] == mx[k]);
        assert(s.subrange(mx[k].start as int, mx[k].end as int) =~= x.subrange(
            mx[k].start as int,
            mx[k].end as int,
        ));
    }
    assert forall|k: int| 0 <= k < my.len() implies (#[trigger] all[mx.len() + k]).raw(s)
        == my[k].raw(y) by {
        assert(my[k].start <= my[k].end <= y.len());
        assert(all[mx.len() + k] == shifted(my, n)[k]);
        assert(s.subrange(my[k].start + n, my[k].end + n) =~= y.subrange(
            my[k].start as int,
            my[k].end as int,
        ));
    }
}

/// A timestamp of `x` is a timestamp of `x + y`, with the same seconds,
/// where no run of digits joins the two texts.
pub proof fn lemma_timestamp_of_head(x: Seq<char>, y: Seq<char>, a: int, b: int)
    requires
        is_timestamp(x, a, b),
        apart(x, y),
    ensures
        is_timestamp(x + y, a, b),
        seconds_at(x + y, a) == seconds_at(x, a),
{
    let s = x + y;
    assert forall|i: int| a <= i < b implies is_digit(#[trigger] s[i]) by {
        assert(s[i] == x[i]);
    }
    assert(s[a] == x[a]);
    if a > 0 {
        assert(s[a - 1] == x[a - 1]);
    }
    if b < x.len() {
        assert(s[b] == x[b]);
    } else if y.len() > 0 {
        assert(is_digit(x[b - 1]));
        assert(s[b] == y[0]);
    }
    assert(s.subrange(a, a + SECONDS_DIGITS) =~= x.subrange(a, a + SECONDS_DIGITS));
}

/// A timestamp of `y` is, moved behind `x`, a timestamp of `x + y`, with the
/// same seconds, where no run of digits joins the two texts.
pub proof fn lemma_timestamp_of_tail(x: Seq<char>, y: Seq<char>, a: int, b: int)
    requires
        is_timestamp(y, a, b),
        apart(x, y),
    ensures
        is_timestamp(x + y, a + x.len(), b + x.len()),
        seconds_at(x + y, a + x.len()) == seconds_at(y, a),
{
    let s = x + y;
    let n = x.len() as int;
    assert forall|i: int| a + n <= i < b + n implies is_digit(#[trigger] s[i]) by {
        assert(s[i] == y[i - n]);
    }
    assert(s[a + n] == y[a]);
    if a > 0 {
        assert(s[a + n - 1] == y[a - 1]);
    } else if n > 0 {
        assert(is_digit(y[0]));
        assert(s[n - 1] == x[n - 1]);
    }
    if b < y.len() {
        assert(s[b + n] == y[b]);
    }
    assert(s.subrange(a + n, a + n + SECONDS_DIGITS) =~= y.subrange(a, a + SECONDS_DIGITS));
}

/// A timestamp of `x + y` lies in `x` or in `y`, and is a timestamp there,
/// where no run of digits joins the two texts.
pub proof fn lemma_timestamp_on_one_side(x: Seq<char>, y: Seq<char>, a: int, b: int)
    requires
        is_timestamp(x + y, a, b),
        apart(x, y),
    ensures
        b <= x.len() || x.len() <= a,
        b <= x.len() ==> is_timestamp(x, a, b),
        x.len() <= a ==> is_timestamp(y, a - x.len(), b - x.len()),
{
    let s = x + y;
    let n = x.len() as int;
    if a < n < b {
        assert(is_digit(s[n - 1]) && s[n - 1] == x[n - 1]);
        assert(is_digit(s[n]) && s[n] == y[0]);
    }
    if b <= n {
        assert forall|i: int| a <= i < b implies is_digit(#[trigger] x[i]) by {
            assert(s[i] == x[i]);
        }
        assert(s[a] == x[a]);
        if a > 0 {
            assert(s[a - 1] == x[a - 1]);
        }
        if b < n {
            assert(s[b] == x[b]);
        }
    } else {
        assert forall|i: int| a - n <= i < b - n implies is_digit(#[trigger] y[i]) by {
            assert(s[i + n] == y[i]);
        }
        assert(s[a] == y[a - n]);
        if a - n > 0 {
            assert(s[a - 1] == y[a - n - 1]);
        }
        if b < s.len() {
            assert(s[b] == y[b - n]);
        }
    }
}

/// `ms` moved `n` places to the left.
pub open spec fn shifted_back(ms: Seq<Match>, n: int) -> Seq<Match> {
    Seq::new(
        ms.len(),
        |k: int|
            Match {
                start: (ms[k].start - n) as usize,
                end: (ms[k].end - n) as usize,
                seconds: ms[k].seconds,
            },
    )
}

/// The first `c` of `ms` end at or before `n`, and the others start at or
/// behind it.
pub open spec fn parted_at(ms: Seq<Match>, n: int, c: int) -> bool {
    &&& 0 <= c <= ms.len()
    &&& forall|k: int| 0 <= k < c ==> (#[trigger] ms[k]).end <= n
    &&& forall|k: int| c <= k < ms.len() ==> n <= (#[trigger] ms[k]).start
}

/// Stretches in order of which none reaches across `n` part at `n`.
pub proof fn lemma_parted(s: Seq<char>, ms: Seq<Match>, n: int)
    requires
        in_order(s, ms),
        forall|k: int| 0 <= k < ms.len() ==> (#[trigger] ms[k]).end <= n || n <= ms[k].start,
    ensures
        exists|c: int| parted_at(ms, n, c),
    decreases ms.len(),
{
    if ms.len() == 0 {
        assert(parted_at(ms, n, 0));
    } else {
        let last = ms.last();
        if last.end <= n {
            assert forall|k: int| 0 <= k < ms.len() implies (#[trigger] ms[k]).end <= n by {
                assert(ms[k].start <= ms[k].end <= s.len());
                if k < ms.len() - 1 {
                    assert(ms[k].end <= ms[ms.len() - 1].start);
                    assert(last.start <= last.end <= s.len());
                }
            }
            assert(parted_at(ms, n, ms.len() as int));
        } else {
            let front = ms.drop_last();
            assert forall|k: int| 0 <= k < front.len() implies (#[trigger] front[k]).start
                <= front[k].end <= s.len() by {
                assert(front[k] == ms[k]);
            }
            assert forall|j: int, k: int| 0 <= j < k < front.len() implies (#[trigger] front[j]).end
                <= (#[trigger] front[k]).start by {
                assert(front[j] == ms[j] && front[k] == ms[k]);
            }
            assert forall|k: int| 0 <= k < front.len() implies (#[trigger] front[k]).end <= n || n
                <= front[k].start by {
                assert(front[k] == ms[k]);
            }
            lemma_parted(s, front, n);
            let c = choose|c: int| parted_at(front, n, c);
            assert forall|k: int| 0 <= k < c implies (#[trigger] ms[k]).end <= n by {
                assert(front[k] == ms[k]);
            }
            assert forall|k: int| c <= k < ms.len() implies n <= (#[trigger] ms[k]).start by {
                if k < front.len() {
                    assert(front[k] == ms[k]);
                }
            }
            assert(parted_at(ms, n, c));
        }
    }
}

/// The timestamps of two joined texts that no run of digits joins are the
/// timestamps of the first followed by those of the second, moved.
pub proof fn lemma_matches_split(x: Seq<char>, y: Seq<char>, ms: Seq<Match>) -> (c: int)
    requires
        matches_of(x + y, ms),
        apart(x, y),
        x.len() + y.len() <= usize::MAX,
    ensures
        parted_at(ms, x.len() as int, c),
        matches_of(x, ms.take(c)),
        matches_of(y, shifted_back(ms.skip(c), x.len() as int)),
        ms == ms.take(c) + shifted(shifted_back(ms.skip(c), x.len() as int), x.len() as int),
{
    let s = x + y;
    let n = x.len() as int;
    lemma_matches_in_order(s, ms);
    assert forall|k: int| 0 <= k < ms.len() implies (#[trigger] ms[k]).end <= n || n
        <= ms[k].start by {
        assert(ms[k].is_in(s));
        lemma_timestamp_on_one_side(x, y, ms[k].start as int, ms[k].end as int);
    }
    lemma_parted(s, ms, n);
    let c = choose|c: int| parted_at(ms, n, c);
    let mx = ms.take(c);
    let my = shifted_back(ms.skip(c), n);
    assert forall|k: int| 0 <= k < mx.len() implies (#[trigger] mx[k]).is_in(x) by {
        assert(mx[k] == ms[k]);
        assert(ms[k].is_in(s));
        lemma_timestamp_on_one_side(x, y, ms[k].start as int, ms[k].end as int);
        lemma_timestamp_of_head(x, y, ms[k].start as int, ms[k].end as int);
    }
    assert forall|j: int, k: int| 0 <= j < k < mx.len() implies (#[trigger] mx[j]).end <= (
    #[trigger] mx[k]).start by {
        assert(mx[j] == ms[j] && mx[k] == ms[k]);
    }
    assert forall|a: int, b: int| #[trigger] is_timestamp(x, a, b) && b <= x.len() implies exists|
        k: int,
    |
        0 <= k < mx.len() && (#[trigger] mx[k]).start == a && mx[k].end == b by {
        lemma_timestamp_of_head(x, y, a, b);
        let k = choose|k: int| 0 <= k < ms.len() && (#[trigger] ms[k]).start == a && ms[k].end == b;
        assert(k < c);
        assert(mx[k] == ms[k]);
    }
    assert forall|k: int| 0 <= k < my.len() implies (#[trigger] my[k]).is_in(y) by {
        let m = ms[c + k];
        assert(ms.skip(c)[k] == m);
        assert(m.is_in(s));
        assert(m.start <= m.end <= s.len());
        lemma_timestamp_on_one_side(x, y, m.start as int, m.end as int);
        lemma_timestamp_of_tail(x, y, m.start - n, m.end - n);
    }
    assert forall|j: int, k: int| 0 <= j < k < my.len() implies (#[trigger] my[j]).end <= (
    #[trigger] my[k]).start by {
        assert(ms.skip(c)[j] == ms[c + j] && ms.skip(c)[k] == ms[c + k]);
        assert(ms[c + j].end <= ms[c + k].start);
        assert(ms[c + j].start <= ms[c + j].end <= s.len());
        assert(ms[c + k].start <= ms[c + k].end <= s.len());
    }
    assert forall|a: int, b: int| #[trigger] is_timestamp(y, a, b) && b <= y.len() implies exists|
        k: int,
    |
        0 <= k < my.len() && (#[trigger] my[k]).start == a && my[k].end == b by {
        lemma_timestamp_of_tail(x, y, a, b);
        let k = choose|k: int|
            0 <= k < ms.len() && (#[trigger] ms[k]).start == a + n && ms[k].end == b + n;
        assert(k >= c);
        assert(ms.skip(c)[k - c] == ms[k]);
        assert(my[k - c].start == a && my[k - c].end == b);
    }
    let back = mx + shifted(my, n);
    assert(back.len() == ms.len());
    assert forall|k: int| 0 <= k < ms.len() implies ms[k] == back[k] by {
        if k < c {
            assert(back[k] == mx[k]);
        } else {
            let m = ms[k];
            assert(ms.skip(c)[k - c] == m);
            assert(m.start <= m.end <= s.len());
            assert(back[k] == shifted(my, n)[k - c]);
        }
    }
    assert(ms =~= back);
    c
}

} // verus!
