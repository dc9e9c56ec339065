use vstd::prelude::*;

verus! {

/// Largest of two integers.
pub open spec fn max_int(a: int, b: int) -> int {
    if a >= b { a } else { b }
}

/// `x` limited to `lo..=hi`.
pub open spec fn clamp_int(x: int, lo: int, hi: int) -> int {
    if x < lo { lo } else if x > hi { hi } else { x }
}

/// Points a segment must span: a quarter of the window and at least four intervals, rounded up
/// to whole intervals, then limited to `2..=max(points / 2, 3)`.
pub open spec fn min_segment_points(interval_secs: int, window_secs: int, point_count: int) -> int {
    let interval = max_int(interval_secs, 1);
    let target = max_int(window_secs / 4, interval * 4);
    clamp_int((target + interval - 1) / interval, 2, max_int(point_count / 2, 3))
}

/// The arithmetic of the minimum segment length stays within the signed range.
pub open spec fn segment_arith_fits(interval_secs: int, window_secs: int) -> bool {
    let interval = max_int(interval_secs, 1);
    &&& interval * 4 <= i64::MAX
    &&& max_int(window_secs / 4, interval * 4) + interval - 1 <= i64::MAX
}

/// Minimum number of points per segment, tied to the sampling interval and the window.
pub fn derive_minimum_segment_length(interval_secs: i64, window_secs: i64, point_count: usize) -> (m: usize)
    requires
        segment_arith_fits(interval_secs as int, window_secs as int),
    ensures
        m as int == min_segment_points(interval_secs as int, window_secs as int, point_count as int),
        2 <= m,
{
    let interval = if interval_secs < 1 { 1 } else { interval_secs };
    let quarter = window_secs / 4;
    let four = interval * 4;
    let target = if quarter >= four { quarter } else { four };
    let target_points = (target + interval - 1) / interval;
    let half = point_count / 2;
    let upper: usize = if half >= 3 { half } else { 3 };
    proof {
        assert(upper <= usize::MAX / 2 + 3);
    }
    let r = if target_points < 2 {
        2
    } else if target_points > upper as i64 {
        upper
    } else {
        target_points as usize
    };
    proof {
        assert(window_secs < 0 ==> quarter <= 0 && (window_secs as int) / 4 <= 0);
        assert(window_secs >= 0 ==> quarter as int == (window_secs as int) / 4);
    }
    r
}

/// Tells whether the minimum segment length can be derived for this interval and window.
pub fn segment_arith_check(interval_secs: i64, window_secs: i64) -> (b: bool)
    ensures
        b == segment_arith_fits(interval_secs as int, window_secs as int),
{
    let interval = if interval_secs < 1 { 1 } else { interval_secs };
    let four = match interval.checked_mul(4) {
        Some(f) => f,
        None => return false,
    };
    let quarter = window_secs / 4;
    let target = if quarter >= four { quarter } else { four };
    target.checked_add(interval - 1).is_some()
}

/// How a series of `point_count` points is segmented: not at all (a single regime) when it has
/// fewer than five points or fewer than two minimum segments, otherwise with that minimum length.
pub fn segmentation_plan(interval_secs: i64, window_secs: i64, point_count: usize) -> (r: Option<usize>)
    requires
        point_count >= 5 ==> segment_arith_fits(interval_secs as int, window_secs as int),
    ensures
        point_count < 5 ==> r is None,
        point_count >= 5 ==> {
            let m = min_segment_points(interval_secs as int, window_secs as int, point_count as int);
            &&& r is None <==> point_count < (if m * 2 > usize::MAX { usize::MAX as int } else { m * 2 })
            &&& r matches Some(k) ==> k as int == m
        },
{
    if point_count < 5 {
        return None;
    }
    let m = derive_minimum_segment_length(interval_secs, window_secs, point_count);
    let twice: usize = if m > usize::MAX / 2 { usize::MAX } else { m * 2 };
    if point_count < twice {
        None
    } else {
        Some(m)
    }
}

/// Boundaries of the regimes: zero, the changepoints strictly inside the series, and the end.
pub open spec fn regime_boundaries(point_count: usize, changepoints: Seq<usize>) -> Seq<usize> {
    seq![0usize] + changepoints.filter(|c: usize| 0 < c < point_count) + seq![point_count]
}

/// The non-empty spans between consecutive boundaries.
pub open spec fn spans_between(b: Seq<usize>) -> Seq<(usize, usize)>
    decreases b.len(),
{
    if b.len() < 2 {
        Seq::empty()
    } else {
        let rest = spans_between(b.drop_last());
        let s = b[b.len() - 2];
        let e = b[b.len() - 1];
        if e > s { rest.push((s, e)) } else { rest }
    }
}

/// Index spans of the regimes that the changepoints cut a series of `point_count` points into.
pub fn regime_spans(point_count: usize, changepoints: &[usize]) -> (r: Vec<(usize, usize)>)
    ensures
        r@ == spans_between(regime_boundaries(point_count, changepoints@)),
{
    let ghost pred = |c: usize| 0 < c < point_count;
    let mut bounds: Vec<usize> = Vec::new();
    bounds.push(0);
    let mut i: usize = 0;
    while i < changepoints.len()
        invariant
            i <= changepoints.len(),
            pred == (|c: usize| 0 < c < point_count),
            bounds@ == seq![0usize] + changepoints@.take(i as int).filter(pred),
        decreases changepoints.len() - i,
    {
        let c = changepoints[i];
        proof {
            changepoints@.take(i as int).lemma_filter_push(c, pred);
            assert(changepoints@.take(i + 1) =~= changepoints@.take(i as int).push(c));
        }
        if 0 < c && c < point_count {
            bounds.push(c);
            assert(bounds@ =~= seq![0usize] + changepoints@.take(i + 1).filter(pred));
        }
        i += 1;
    }
    bounds.push(point_count);
    assert(changepoints@.take(changepoints.len() as int) =~= changepoints@);
    assert(bounds@ =~= regime_boundaries(point_count, changepoints@));
    let ghost b = bounds@;
    let mut spans: Vec<(usize, usize)> = Vec::new();
    let mut k: usize = 1;
    while k < bounds.len()
        invariant
            b == bounds@,
            1 <= k <= b.len(),
            spans@ == spans_between(b.take(k as int)),
        decreases b.len() - k,
    {
        let s = bounds[k - 1];
        let e = bounds[k];
        proof {
            assert(b.take(k + 1).drop_last() =~= b.take(k as int));
        }
        if e > s {
            spans.push((s, e));
        }
        k += 1;
    }
    assert(b.take(b.len() as int) =~= b);
    spans
}

/// Changepoints that strictly increase inside the series cut it into consecutive, non-empty
/// regimes that cover it: one more regime than changepoints, from the first point to the last.
pub proof fn lemma_regimes_tile(point_count: usize, changepoints: Seq<usize>)
    requires
        point_count > 0,
        forall|k: int| 0 <= k < changepoints.len() ==> 0 < #[trigger] changepoints[k] < point_count,
        forall|a: int, b: int| 0 <= a < b < changepoints.len() ==> changepoints[a] < changepoints[b],
    ensures
        spans_between(regime_boundaries(point_count, changepoints)).len() == changepoints.len() + 1,
        spans_between(regime_boundaries(point_count, changepoints))[0].0 == 0,
        spans_between(regime_boundaries(point_count, changepoints)).last().1 == point_count,
        forall|k: int| 0 <= k < changepoints.len() ==> #[trigger] spans_between(regime_boundaries(point_count, changepoints))[k].1
            == spans_between(regime_boundaries(point_count, changepoints))[k + 1].0,
        forall|k: int| 0 <= k <= changepoints.len() ==> #[trigger] spans_between(regime_boundaries(point_count, changepoints))[k].0
            < spans_between(regime_boundaries(point_count, changepoints))[k].1,
{
    let pred = |c: usize| 0 < c < point_count;
    assert(changepoints.filter(pred) == changepoints) by {
        lemma_filter_all(changepoints, pred);
    }
    let b = regime_boundaries(point_count, changepoints);
    assert(b =~= seq![0usize] + changepoints + seq![point_count]);
    lemma_spans_increasing(b);
}

proof fn lemma_filter_all(s: Seq<usize>, pred: spec_fn(usize) -> bool)
    requires
        forall|k: int| 0 <= k < s.len() ==> pred(#[trigger] s[k]),
    ensures
        s.filter(pred) == s,
    decreases s.len(),
{
    if s.len() > 0 {
        lemma_filter_all(s.drop_last(), pred);
        s.drop_last().lemma_filter_push(s.last(), pred);
        assert(s.drop_last().push(s.last()) =~= s);
    } else {
        reveal(Seq::filter);
        assert(s.filter(pred) =~= s);
    }
}

proof fn lemma_spans_increasing(b: Seq<usize>)
    requires
        b.len() >= 2,
        forall|x: int, y: int| 0 <= x < y < b.len() ==> b[x] < b[y],
    ensures
        spans_between(b).len() == b.len() - 1,
        forall|k: int| 0 <= k < b.len() - 1 ==> #[trigger] spans_between(b)[k] == (b[k], b[k + 1]),
    decreases b.len(),
{
    if b.len() > 2 {
        lemma_spans_increasing(b.drop_last());
    }
    let sb = spans_between(b);
    if b.len() == 2 {
        assert(b.drop_last().len() == 1);
        assert(spans_between(b.drop_last()) =~= Seq::<(usize, usize)>::empty());
    }
    assert forall|k: int| 0 <= k < b.len() - 1 implies #[trigger] sb[k] == (b[k], b[k + 1]) by {
        if k < b.len() - 2 {
            assert(sb[k] == spans_between(b.drop_last())[k]);
        }
    }
}

/// Bounds of the PAA segments: `segments` limited to `1..=len` equal slices, each
/// `[s * len / segments, max((s + 1) * len / segments, start + 1))`.
pub open spec fn paa_segment_count(len: int, segments: int) -> int {
    if len == 0 { 0 } else if segments < 1 { 1 } else if segments > len { len } else { segments }
}

/// Tells whether the segment bounds of `len` values can be computed without overflow.
pub fn paa_bounds_fit(len: usize, segments: usize) -> (b: bool)
    ensures
        b == (paa_segment_count(len as int, segments as int) * len <= usize::MAX),
{
    let count: usize = if len == 0 { 0 } else if segments < 1 { 1 } else if segments > len { len } else { segments };
    count.checked_mul(len).is_some()
}

/// Index bounds of the piecewise-aggregate segments of `len` values.
pub fn paa_bounds(len: usize, segments: usize) -> (r: Vec<(usize, usize)>)
    requires
        paa_segment_count(len as int, segments as int) * len <= usize::MAX,
    ensures
        r@.len() == paa_segment_count(len as int, segments as int),
        forall|s: int| 0 <= s < r@.len() ==> {
            let n = r@.len() as int;
            &&& (#[trigger] r@[s]).0 as int == s * len / n
            &&& r@[s].1 as int == max_int((s + 1) * len / n, s * len / n + 1)
        },
{
    let mut out: Vec<(usize, usize)> = Vec::new();
    if len == 0 {
        return out;
    }
    let segs: usize = if segments < 1 { 1 } else if segments > len { len } else { segments };
    let mut s: usize = 0;
    while s < segs
        invariant
            segs as int == paa_segment_count(len as int, segments as int),
            1 <= segs <= len,
            segs * len <= usize::MAX,
            s <= segs,
            out@.len() == s,
            forall|q: int| 0 <= q < s ==> {
                &&& (#[trigger] out@[q]).0 as int == q * len / (segs as int)
                &&& out@[q].1 as int == max_int((q + 1) * len / (segs as int), q * len / (segs as int) + 1)
            },
        decreases segs - s,
    {
        proof {
            assert((s + 1) * len <= segs * len) by (nonlinear_arith)
                requires s + 1 <= segs;
            assert(s * len <= (s + 1) * len) by (nonlinear_arith);
            assert(s * len / (segs as int) < len as int) by (nonlinear_arith)
                requires segs >= 1, s < segs, len >= 1;
        }
        let start = s * len / segs;
        let upper = (s + 1) * len / segs;
        let end = if upper >= start + 1 { upper } else { start + 1 };
        out.push((start, end));
        s += 1;
    }
    out
}

/// With at least as many values as segments, the PAA segments tile the values: the first starts
/// at zero, each ends where the next starts, the last ends at the length, and none is empty.
pub proof fn lemma_paa_tiles(len: int, n: int)
    requires
        1 <= n <= len,
    ensures
        0 * len / n == 0,
        n * len / n == len,
        forall|s: int| 0 <= s < n ==> #[trigger] ((s + 1) * len / n) >= s * len / n + 1,
{
    assert(n * len / n == len) by (nonlinear_arith)
        requires n >= 1;
    assert forall|s: int| 0 <= s < n implies #[trigger] ((s + 1) * len / n) >= s * len / n + 1 by {
        lemma_step_at_least_one(s, len, n);
    }
}

proof fn lemma_step_at_least_one(s: int, len: int, n: int)
    requires
        0 <= s,
        1 <= n <= len,
    ensures
        (s + 1) * len / n >= s * len / n + 1,
{
    let q = s * len / n;
    assert(q * n <= s * len) by (nonlinear_arith)
        requires q == s * len / n, n >= 1;
    assert((s + 1) * len == s * len + len) by (nonlinear_arith);
    assert((q + 1) * n <= (s + 1) * len) by (nonlinear_arith)
        requires q * n <= s * len, (s + 1) * len == s * len + len, n <= len;
    assert((s + 1) * len / n >= q + 1) by (nonlinear_arith)
        requires (q + 1) * n <= (s + 1) * len, n >= 1;
}

} // verus!
