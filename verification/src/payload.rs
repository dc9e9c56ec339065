use vstd::prelude::*;

use crate::clock::{read_utc, utc_reading};
use crate::events::Event;
use crate::features::{duration_text, format_duration};
use crate::regression::kinds_text;
use crate::schema::{
    EventKind, EvidenceItem, LlmOutput, PeerContext, Scope, StateKind, TrendKind,
};
use crate::text::{dec_digits, dec_int, join_text, lemma_join_push, padded_int, push_i64, push_padded, push_usize};

verus! {

/// The canonical analysis of one subject as the projection reads it.
#[derive(Debug)]
pub struct CanonicalAnalysis {
    pub schema_version: &'static str,
    pub scope: Scope,
    pub metric_id: String,
    pub subject_id: String,
    pub window_start_ts_secs: Option<i64>,
    pub window_secs: i64,
    pub state: StateKind,
    pub trend: TrendKind,
    pub top_events: Vec<Event>,
    pub peer_context: Option<PeerContext>,
    pub evidence: Vec<EvidenceItem>,
}

/// A relative offset: `0m` at or before the window start, otherwise a duration.
pub open spec fn offset_text(ts: int) -> Seq<char> {
    if ts <= 0 { "0m"@ } else { duration_text(ts) }
}

/// Renders an offset from the window start.
pub fn format_offset(ts_secs: i64) -> (r: String)
    ensures
        r@ == offset_text(ts_secs as int),
{
    if ts_secs <= 0 {
        let mut out = String::new();
        out.append("0m");
        out
    } else {
        format_duration(ts_secs)
    }
}

/// Events that mark a problem span: a real span and not a trend.
pub open spec fn is_focused(e: Event) -> bool {
    e.start_ts_secs < e.end_ts_secs && e.kind != EventKind::IncreasingTrend && e.kind != EventKind::DecreasingTrend
}

pub open spec fn focus_pred() -> spec_fn(Event) -> bool {
    |e: Event| is_focused(e)
}

pub open spec fn focused(s: Seq<Event>) -> Seq<Event> {
    s.filter(focus_pred())
}

/// Earliest start of a non-empty sequence of events.
pub open spec fn min_start(s: Seq<Event>) -> int
    decreases s.len(),
{
    if s.len() <= 1 {
        s[0].start_ts_secs as int
    } else {
        let m = min_start(s.drop_last());
        if s.last().start_ts_secs < m { s.last().start_ts_secs as int } else { m }
    }
}

/// Latest end of a non-empty sequence of events.
pub open spec fn max_end(s: Seq<Event>) -> int
    decreases s.len(),
{
    if s.len() <= 1 {
        s[0].end_ts_secs as int
    } else {
        let m = max_end(s.drop_last());
        if s.last().end_ts_secs > m { s.last().end_ts_secs as int } else { m }
    }
}

/// The problem span: the hull of the focused events, else the first event's span, else the
/// whole window.
pub open spec fn problem_bounds(a: CanonicalAnalysis) -> (int, int) {
    let f = focused(a.top_events@);
    if f.len() > 0 {
        (min_start(f), max_end(f))
    } else if a.top_events@.len() > 0 {
        (a.top_events@[0].start_ts_secs as int, a.top_events@[0].end_ts_secs as int)
    } else {
        (0, if a.window_secs < 0 { 0 } else { a.window_secs as int })
    }
}

/// The earliest start and latest end of a non-empty sequence bound every event and are
/// attained by one.
proof fn lemma_hull_of(f: Seq<Event>)
    requires
        f.len() > 0,
    ensures
        forall|i: int| 0 <= i < f.len() ==> min_start(f) <= (#[trigger] f[i]).start_ts_secs && f[i].end_ts_secs <= max_end(f),
        exists|i: int| 0 <= i < f.len() && min_start(f) == (#[trigger] f[i]).start_ts_secs,
        exists|j: int| 0 <= j < f.len() && max_end(f) == (#[trigger] f[j]).end_ts_secs,
    decreases f.len(),
{
    if f.len() > 1 {
        let d = f.drop_last();
        lemma_hull_of(d);
        assert forall|i: int| 0 <= i < d.len() implies f[i] == #[trigger] d[i] by {}
        let i0 = choose|i: int| 0 <= i < d.len() && min_start(d) == (#[trigger] d[i]).start_ts_secs;
        let j0 = choose|j: int| 0 <= j < d.len() && max_end(d) == (#[trigger] d[j]).end_ts_secs;
        assert(f[i0] == d[i0] && f[j0] == d[j0]);
        assert(f[f.len() - 1] == f.last());
        assert forall|i: int| 0 <= i < f.len() implies min_start(f) <= (#[trigger] f[i]).start_ts_secs && f[i].end_ts_secs <= max_end(f) by {
            if i < f.len() - 1 {
                assert(f[i] == d[i]);
            }
        }
    } else {
        assert(f[0] == f.last());
    }
}

/// The problem span: when some top event has a real span and is not a trend, it runs from the
/// earliest start to the latest end of those events, each bound being that of one of them; when
/// none does, it is the first event's span, or the window when there are no events.
pub proof fn lemma_problem_span_law(a: CanonicalAnalysis)
    ensures
        forall|k: int| 0 <= k < a.top_events@.len() && (#[trigger] a.top_events@[k]).start_ts_secs < a.top_events@[k].end_ts_secs
            && a.top_events@[k].kind != EventKind::IncreasingTrend && a.top_events@[k].kind != EventKind::DecreasingTrend
            ==> problem_bounds(a).0 <= a.top_events@[k].start_ts_secs && a.top_events@[k].end_ts_secs <= problem_bounds(a).1,
        (exists|k: int| 0 <= k < a.top_events@.len() && (#[trigger] a.top_events@[k]).start_ts_secs < a.top_events@[k].end_ts_secs
            && a.top_events@[k].kind != EventKind::IncreasingTrend && a.top_events@[k].kind != EventKind::DecreasingTrend) ==> {
            &&& exists|k: int| 0 <= k < a.top_events@.len() && (#[trigger] a.top_events@[k]).start_ts_secs < a.top_events@[k].end_ts_secs
                && a.top_events@[k].kind != EventKind::IncreasingTrend && a.top_events@[k].kind != EventKind::DecreasingTrend
                && problem_bounds(a).0 == a.top_events@[k].start_ts_secs
            &&& exists|k: int| 0 <= k < a.top_events@.len() && (#[trigger] a.top_events@[k]).start_ts_secs < a.top_events@[k].end_ts_secs
                && a.top_events@[k].kind != EventKind::IncreasingTrend && a.top_events@[k].kind != EventKind::DecreasingTrend
                && problem_bounds(a).1 == a.top_events@[k].end_ts_secs
        },
        (forall|k: int| 0 <= k < a.top_events@.len() ==> !((#[trigger] a.top_events@[k]).start_ts_secs < a.top_events@[k].end_ts_secs
            && a.top_events@[k].kind != EventKind::IncreasingTrend && a.top_events@[k].kind != EventKind::DecreasingTrend)) ==>
            problem_bounds(a) == if a.top_events@.len() > 0 {
                (a.top_events@[0].start_ts_secs as int, a.top_events@[0].end_ts_secs as int)
            } else {
                (0int, if a.window_secs < 0 { 0int } else { a.window_secs as int })
            },
{
    let s = a.top_events@;
    let f = focused(s);
    broadcast use vstd::seq_lib::group_filter_ensures;
    assert forall|k: int| 0 <= k < s.len() && is_focused(#[trigger] s[k]) implies f.contains(s[k]) by {
        s.lemma_filter_contains(focus_pred(), k);
    }
    if f.len() > 0 {
        lemma_hull_of(f);
        assert forall|k: int| 0 <= k < s.len() && (#[trigger] s[k]).start_ts_secs < s[k].end_ts_secs
            && s[k].kind != EventKind::IncreasingTrend && s[k].kind != EventKind::DecreasingTrend
            implies problem_bounds(a).0 <= s[k].start_ts_secs && s[k].end_ts_secs <= problem_bounds(a).1 by {
            assert(is_focused(s[k]));
            assert(f.contains(s[k]));
            let i = choose|i: int| 0 <= i < f.len() && f[i] == s[k];
            assert(min_start(f) <= f[i].start_ts_secs);
        }
        let i = choose|i: int| 0 <= i < f.len() && min_start(f) == (#[trigger] f[i]).start_ts_secs;
        let j = choose|j: int| 0 <= j < f.len() && max_end(f) == (#[trigger] f[j]).end_ts_secs;
        assert(focus_pred()(f[i]) && focus_pred()(f[j]));
        assert(f.contains(f[i]) && f.contains(f[j]));
        s.lemma_filter_contains_rev(focus_pred(), f[i]);
        s.lemma_filter_contains_rev(focus_pred(), f[j]);
        let ki = choose|k: int| 0 <= k < s.len() && s[k] == f[i];
        let kj = choose|k: int| 0 <= k < s.len() && s[k] == f[j];
        assert(s[ki].start_ts_secs < s[ki].end_ts_secs);
        assert(s[kj].start_ts_secs < s[kj].end_ts_secs);
    } else {
        assert forall|k: int| 0 <= k < s.len() implies !((#[trigger] s[k]).start_ts_secs < s[k].end_ts_secs
            && s[k].kind != EventKind::IncreasingTrend && s[k].kind != EventKind::DecreasingTrend) by {
            if is_focused(s[k]) {
                assert(f.contains(s[k]));
            }
        }
    }
}

/// Computes the problem span of an analysis.
pub fn infer_problem_range_bounds(analysis: &CanonicalAnalysis) -> (r: (i64, i64))
    ensures
        (r.0 as int, r.1 as int) == problem_bounds(*analysis),
{
    let ghost s = analysis.top_events@;
    let ghost pred = focus_pred();
    let mut found = false;
    let mut lo: i64 = 0;
    let mut hi: i64 = 0;
    let mut i: usize = 0;
    while i < analysis.top_events.len()
        invariant
            s == analysis.top_events@,
            pred == focus_pred(),
            i <= s.len(),
            found == (s.take(i as int).filter(pred).len() > 0),
            found ==> lo == min_start(s.take(i as int).filter(pred)) && hi == max_end(s.take(i as int).filter(pred)),
        decreases s.len() - i,
    {
        let e = &analysis.top_events[i];
        proof {
            s.take(i as int).lemma_filter_push(s[i as int], pred);
            assert(s.take(i + 1) =~= s.take(i as int).push(s[i as int]));
        }
        let focus = e.start_ts_secs < e.end_ts_secs && !e.kind.same(EventKind::IncreasingTrend) && !e.kind.same(EventKind::DecreasingTrend);
        if focus {
            let ghost f0 = s.take(i as int).filter(pred);
            assert(f0.push(*e).drop_last() =~= f0);
            if !found {
                lo = e.start_ts_secs;
                hi = e.end_ts_secs;
                found = true;
            } else {
                if e.start_ts_secs < lo {
                    lo = e.start_ts_secs;
                }
                if e.end_ts_secs > hi {
                    hi = e.end_ts_secs;
                }
            }
        }
        i += 1;
    }
    assert(s.take(s.len() as int) =~= s);
    if found {
        (lo, hi)
    } else if analysis.top_events.len() > 0 {
        (analysis.top_events[0].start_ts_secs, analysis.top_events[0].end_ts_secs)
    } else {
        (0, if analysis.window_secs < 0 { 0 } else { analysis.window_secs })
    }
}

/// Relative problem span, `start->end`.
pub open spec fn range_text(a: CanonicalAnalysis) -> Seq<char> {
    offset_text(problem_bounds(a).0) + "->"@ + offset_text(problem_bounds(a).1)
}

/// Date of a calendar reading, `YYYY-MM-DD`.
pub open spec fn date_text(u: (i32, u8, u8, u8, u8)) -> Seq<char> {
    padded_int(u.0 as int, 4) + "-"@ + padded_int(u.1 as int, 2) + "-"@ + padded_int(u.2 as int, 2)
}

/// Clock time of a calendar reading, `HH:MM`.
pub open spec fn clock_text(u: (i32, u8, u8, u8, u8)) -> Seq<char> {
    padded_int(u.3 as int, 2) + ":"@ + padded_int(u.4 as int, 2)
}

/// An absolute span from the calendar readings of its ends: one date when both ends fall on it,
/// two dated ends otherwise, and plain seconds when either end has no reading.
pub open spec fn absolute_range_text(
    start: int,
    end: int,
    rs: Option<(i32, u8, u8, u8, u8)>,
    re: Option<(i32, u8, u8, u8, u8)>,
) -> Seq<char> {
    match (rs, re) {
        (Some(a), Some(b)) => if a.0 == b.0 && a.1 == b.1 && a.2 == b.2 {
            date_text(a) + " "@ + clock_text(a) + "->"@ + clock_text(b) + " UTC"@
        } else {
            date_text(a) + " "@ + clock_text(a) + " UTC->"@ + date_text(b) + " "@ + clock_text(b) + " UTC"@
        },
        _ => dec_int(start) + "s->"@ + dec_int(end) + "s"@,
    }
}

fn push_date(out: &mut String, u: (i32, u8, u8, u8, u8))
    ensures
        final(out)@ == old(out)@ + date_text(u),
{
    push_padded(out, u.0 as i64, 4);
    out.append("-");
    push_padded(out, u.1 as i64, 2);
    out.append("-");
    push_padded(out, u.2 as i64, 2);
    assert(final(out)@ =~= old(out)@ + date_text(u));
}

fn push_clock(out: &mut String, u: (i32, u8, u8, u8, u8))
    ensures
        final(out)@ == old(out)@ + clock_text(u),
{
    push_padded(out, u.3 as i64, 2);
    out.append(":");
    push_padded(out, u.4 as i64, 2);
    assert(final(out)@ =~= old(out)@ + clock_text(u));
}

/// Renders an absolute span from the calendar readings of its two ends.
pub fn format_absolute_range_from(
    start_ts_secs: i64,
    end_ts_secs: i64,
    start: Option<(i32, u8, u8, u8, u8)>,
    end: Option<(i32, u8, u8, u8, u8)>,
) -> (r: String)
    ensures
        r@ == absolute_range_text(start_ts_secs as int, end_ts_secs as int, start, end),
{
    let mut out = String::new();
    match (start, end) {
        (Some(a), Some(b)) => {
            push_date(&mut out, a);
            out.append(" ");
            push_clock(&mut out, a);
            if a.0 == b.0 && a.1 == b.1 && a.2 == b.2 {
                out.append("->");
                push_clock(&mut out, b);
                out.append(" UTC");
            } else {
                out.append(" UTC->");
                push_date(&mut out, b);
                out.append(" ");
                push_clock(&mut out, b);
                out.append(" UTC");
            }
        },
        _ => {
            push_i64(&mut out, start_ts_secs);
            out.append("s->");
            push_i64(&mut out, end_ts_secs);
            out.append("s");
        },
    }
    assert(out@ =~= absolute_range_text(start_ts_secs as int, end_ts_secs as int, start, end));
    out
}

/// Renders an absolute span of Unix times in UTC.
pub fn format_absolute_range(start_ts_secs: i64, end_ts_secs: i64) -> (r: String)
    ensures
        r@ == absolute_range_text(
            start_ts_secs as int,
            end_ts_secs as int,
            utc_reading(start_ts_secs),
            utc_reading(end_ts_secs),
        ),
{
    let a = read_utc(start_ts_secs);
    let b = read_utc(end_ts_secs);
    format_absolute_range_from(start_ts_secs, end_ts_secs, a, b)
}

/// Label of one absolute time point: its clock time, or its offset in seconds without a reading.
pub open spec fn point_label(tp: int, r: Option<(i32, u8, u8, u8, u8)>) -> Seq<char> {
    match r {
        Some(u) => clock_text(u),
        None => dec_int(tp) + "s"@,
    }
}

/// Absolute time points, comma-separated and marked as UTC.
pub open spec fn absolute_points_text(ws: int, tps: Seq<i64>) -> Seq<char> {
    join_text(tps.map_values(|tp: i64| point_label(tp as int, utc_reading((ws + tp) as i64))), ","@) + " UTC"@
}

/// Relative time points, comma-separated.
pub open spec fn relative_points_text(tps: Seq<i64>) -> Seq<char> {
    join_text(tps.map_values(|tp: i64| offset_text(tp as int)), ","@)
}

/// Renders time points as UTC clock times.
pub fn format_absolute_points(window_start_ts_secs: i64, timepoints_ts_secs: &[i64]) -> (r: String)
    requires
        forall|k: int| 0 <= k < timepoints_ts_secs@.len() ==> i64::MIN <= window_start_ts_secs + #[trigger] timepoints_ts_secs@[k] <= i64::MAX,
    ensures
        r@ == absolute_points_text(window_start_ts_secs as int, timepoints_ts_secs@),
{
    let ghost tps = timepoints_ts_secs@;
    let ghost ws = window_start_ts_secs as int;
    let ghost parts = tps.map_values(|tp: i64| point_label(tp as int, utc_reading((ws + tp) as i64)));
    let mut out = String::new();
    let mut i: usize = 0;
    while i < timepoints_ts_secs.len()
        invariant
            tps == timepoints_ts_secs@,
            ws == window_start_ts_secs as int,
            parts == tps.map_values(|tp: i64| point_label(tp as int, utc_reading((ws + tp) as i64))),
            i <= tps.len(),
            forall|k: int| 0 <= k < tps.len() ==> i64::MIN <= ws + #[trigger] tps[k] <= i64::MAX,
            out@ == join_text(parts.take(i as int), ","@),
        decreases tps.len() - i,
    {
        let tp = timepoints_ts_secs[i];
        let ghost before = out@;
        proof {
            lemma_join_push(parts.take(i as int), ","@, parts[i as int]);
            assert(parts.take(i + 1) =~= parts.take(i as int).push(parts[i as int]));
        }
        if i > 0 {
            out.append(",");
        }
        let ghost mid = out@;
        match read_utc(window_start_ts_secs + tp) {
            Some(u) => {
                push_clock(&mut out, u);
            },
            None => {
                push_i64(&mut out, tp);
                out.append("s");
            },
        }
        assert(out@ =~= mid + parts[i as int]);
        i += 1;
    }
    assert(parts.take(tps.len() as int) =~= parts);
    out.append(" UTC");
    out
}

/// Renders time points as offsets from the window start.
pub fn format_relative_points(timepoints_ts_secs: &[i64]) -> (r: String)
    ensures
        r@ == relative_points_text(timepoints_ts_secs@),
{
    let ghost tps = timepoints_ts_secs@;
    let ghost parts = tps.map_values(|tp: i64| offset_text(tp as int));
    let mut out = String::new();
    let mut i: usize = 0;
    while i < timepoints_ts_secs.len()
        invariant
            tps == timepoints_ts_secs@,
            parts == tps.map_values(|tp: i64| offset_text(tp as int)),
            i <= tps.len(),
            out@ == join_text(parts.take(i as int), ","@),
        decreases tps.len() - i,
    {
        proof {
            lemma_join_push(parts.take(i as int), ","@, parts[i as int]);
            assert(parts.take(i + 1) =~= parts.take(i as int).push(parts[i as int]));
        }
        if i > 0 {
            out.append(",");
        }
        let piece = format_offset(timepoints_ts_secs[i]);
        out.append(piece.as_str());
        i += 1;
    }
    assert(parts.take(tps.len() as int) =~= parts);
    out
}

/// The absolute times an event's timing is rendered from fit the signed range: its time points
/// when it has any, otherwise the two ends of its span.
pub open spec fn event_offsets_fit(ws: int, e: Event) -> bool {
    if e.timepoints_ts_secs@.len() > 0 {
        forall|q: int| 0 <= q < e.timepoints_ts_secs@.len() ==> i64::MIN <= ws + #[trigger] e.timepoints_ts_secs@[q] <= i64::MAX
    } else {
        &&& i64::MIN <= ws + e.start_ts_secs <= i64::MAX
        &&& i64::MIN <= ws + e.end_ts_secs <= i64::MAX
    }
}

/// Every absolute time the projection renders, the window start plus an offset, stays within
/// the signed range: the two ends of the problem span and the timing of each top event.
pub open spec fn offsets_fit(a: CanonicalAnalysis) -> bool {
    match a.window_start_ts_secs {
        None => true,
        Some(ws) => {
            &&& i64::MIN <= ws + problem_bounds(a).0 <= i64::MAX
            &&& i64::MIN <= ws + problem_bounds(a).1 <= i64::MAX
            &&& forall|k: int| 0 <= k < a.top_events@.len() ==> event_offsets_fit(ws as int, #[trigger] a.top_events@[k])
        },
    }
}

/// Whether `ws + x` stays within the signed range.
fn sum_fits(ws: i64, x: i64) -> (b: bool)
    ensures
        b == (i64::MIN <= ws + x <= i64::MAX),
{
    ws.checked_add(x).is_some()
}

/// Tells whether an analysis can be projected: every absolute time it renders is representable.
pub fn projection_fits(analysis: &CanonicalAnalysis) -> (b: bool)
    ensures
        b == offsets_fit(*analysis),
{
    let ws = match analysis.window_start_ts_secs {
        None => return true,
        Some(ws) => ws,
    };
    let bounds = infer_problem_range_bounds(analysis);
    if !sum_fits(ws, bounds.0) || !sum_fits(ws, bounds.1) {
        return false;
    }
    let events = &analysis.top_events;
    let mut k: usize = 0;
    while k < events.len()
        invariant
            k <= events@.len(),
            events@ == analysis.top_events@,
            analysis.window_start_ts_secs == Some(ws),
            i64::MIN <= ws + problem_bounds(*analysis).0 <= i64::MAX,
            i64::MIN <= ws + problem_bounds(*analysis).1 <= i64::MAX,
            forall|j: int| 0 <= j < k ==> event_offsets_fit(ws as int, #[trigger] events@[j]),
        decreases events@.len() - k,
    {
        let e = &events[k];
        let tps = &e.timepoints_ts_secs;
        if tps.len() > 0 {
            let mut q: usize = 0;
            while q < tps.len()
                invariant
                    q <= tps@.len(),
                    k < events@.len(),
                    events@ == analysis.top_events@,
                    tps@ == events@[k as int].timepoints_ts_secs@,
                    analysis.window_start_ts_secs == Some(ws),
                    forall|p: int| 0 <= p < q ==> i64::MIN <= ws + #[trigger] tps@[p] <= i64::MAX,
                decreases tps@.len() - q,
            {
                if !sum_fits(ws, tps[q]) {
                    assert(events@[k as int].timepoints_ts_secs@[q as int] == tps@[q as int]);
                    assert(!event_offsets_fit(ws as int, analysis.top_events@[k as int]));
                    return false;
                }
                q += 1;
            }
        } else if !sum_fits(ws, e.start_ts_secs) || !sum_fits(ws, e.end_ts_secs) {
            assert(!event_offsets_fit(ws as int, analysis.top_events@[k as int]));
            return false;
        }
        assert(event_offsets_fit(ws as int, events@[k as int]));
        k += 1;
    }
    true
}

/// When an event happened: absolute clock times when the window start is known, offsets
/// otherwise; its time points when it has any, its span otherwise.
pub open spec fn event_timing_text(a: CanonicalAnalysis, e: Event) -> Seq<char> {
    match a.window_start_ts_secs {
        Some(ws) => if e.timepoints_ts_secs@.len() > 0 {
            absolute_points_text(ws as int, e.timepoints_ts_secs@)
        } else {
            absolute_range_text(
                ws + e.start_ts_secs,
                ws + e.end_ts_secs,
                utc_reading((ws + e.start_ts_secs) as i64),
                utc_reading((ws + e.end_ts_secs) as i64),
            )
        },
        None => if e.timepoints_ts_secs@.len() > 0 {
            relative_points_text(e.timepoints_ts_secs@)
        } else {
            offset_text(e.start_ts_secs as int) + "->"@ + offset_text(e.end_ts_secs as int)
        },
    }
}

/// Each top event as `kind@timing`, separated by a comma and a space.
pub open spec fn event_times_text(a: CanonicalAnalysis) -> Seq<char> {
    join_text(a.top_events@.map_values(|e: Event| e.kind.label() + "@"@ + event_timing_text(a, e)), ", "@)
}

fn push_event_timing(out: &mut String, analysis: &CanonicalAnalysis, k: usize)
    requires
        k < analysis.top_events@.len(),
        offsets_fit(*analysis),
    ensures
        final(out)@ == old(out)@ + event_timing_text(*analysis, analysis.top_events@[k as int]),
{
    let e = &analysis.top_events[k];
    match analysis.window_start_ts_secs {
        Some(ws) => {
            if e.timepoints_ts_secs.len() > 0 {
                let t = format_absolute_points(ws, e.timepoints_ts_secs.as_slice());
                out.append(t.as_str());
            } else {
                let t = format_absolute_range(ws + e.start_ts_secs, ws + e.end_ts_secs);
                out.append(t.as_str());
            }
        },
        None => {
            if e.timepoints_ts_secs.len() > 0 {
                let t = format_relative_points(e.timepoints_ts_secs.as_slice());
                out.append(t.as_str());
            } else {
                let a = format_offset(e.start_ts_secs);
                let b = format_offset(e.end_ts_secs);
                out.append(a.as_str());
                out.append("->");
                out.append(b.as_str());
            }
        },
    }
    assert(final(out)@ =~= old(out)@ + event_timing_text(*analysis, analysis.top_events@[k as int]));
}

/// Renders when each top event happened.
pub fn summarize_event_times(analysis: &CanonicalAnalysis) -> (r: String)
    requires
        offsets_fit(*analysis),
    ensures
        r@ == event_times_text(*analysis),
{
    let ghost a = *analysis;
    let ghost parts = a.top_events@.map_values(|e: Event| e.kind.label() + "@"@ + event_timing_text(a, e));
    let mut out = String::new();
    let mut i: usize = 0;
    while i < analysis.top_events.len()
        invariant
            a == *analysis,
            offsets_fit(a),
            parts == a.top_events@.map_values(|e: Event| e.kind.label() + "@"@ + event_timing_text(a, e)),
            i <= a.top_events@.len(),
            out@ == join_text(parts.take(i as int), ", "@),
        decreases a.top_events@.len() - i,
    {
        proof {
            lemma_join_push(parts.take(i as int), ", "@, parts[i as int]);
            assert(parts.take(i + 1) =~= parts.take(i as int).push(parts[i as int]));
        }
        if i > 0 {
            out.append(", ");
        }
        let ghost mid = out@;
        out.append(analysis.top_events[i].kind.as_str());
        out.append("@");
        push_event_timing(&mut out, analysis, i);
        assert(out@ =~= mid + parts[i as int]);
        i += 1;
    }
    assert(parts.take(a.top_events@.len() as int) =~= parts);
    out
}

/// The problem span in UTC when the window start is known, otherwise as offsets.
pub open spec fn problem_time_text(a: CanonicalAnalysis) -> Seq<char> {
    match a.window_start_ts_secs {
        None => range_text(a),
        Some(ws) => absolute_range_text(
            ws + problem_bounds(a).0,
            ws + problem_bounds(a).1,
            utc_reading((ws + problem_bounds(a).0) as i64),
            utc_reading((ws + problem_bounds(a).1) as i64),
        ),
    }
}

/// The first three evidence items as `label:value`, separated by a comma and a space.
pub open spec fn evidence_text(items: Seq<EvidenceItem>) -> Seq<char> {
    let shown = if items.len() <= 3 { items } else { items.take(3) };
    join_text(shown.map_values(|it: EvidenceItem| it.label@ + ":"@ + it.value@), ", "@)
}

fn summarize_evidence(items: &Vec<EvidenceItem>) -> (r: String)
    ensures
        r@ == evidence_text(items@),
{
    let ghost shown = if items@.len() <= 3 { items@ } else { items@.take(3) };
    let ghost parts = shown.map_values(|it: EvidenceItem| it.label@ + ":"@ + it.value@);
    let n: usize = if items.len() <= 3 { items.len() } else { 3 };
    let mut out = String::new();
    let mut i: usize = 0;
    while i < n
        invariant
            n == shown.len(),
            n <= items@.len(),
            forall|q: int| 0 <= q < n ==> shown[q] == items@[q],
            parts == shown.map_values(|it: EvidenceItem| it.label@ + ":"@ + it.value@),
            i <= n,
            out@ == join_text(parts.take(i as int), ", "@),
        decreases n - i,
    {
        proof {
            lemma_join_push(parts.take(i as int), ", "@, parts[i as int]);
            assert(parts.take(i + 1) =~= parts.take(i as int).push(parts[i as int]));
        }
        if i > 0 {
            out.append(", ");
        }
        let ghost mid = out@;
        out.append(items[i].label.as_str());
        out.append(":");
        out.append(items[i].value.as_str());
        assert(out@ =~= mid + parts[i as int]);
        i += 1;
    }
    assert(parts.take(n as int) =~= parts);
    out
}

/// The fields of the description, in their fixed order.
pub open spec fn description_fields(a: CanonicalAnalysis) -> Seq<Seq<char>> {
    let base = seq![
        "window="@ + duration_text(if a.window_secs < 0 { 0 } else { a.window_secs as int }),
        "problem_range="@ + range_text(a),
        "problem_time="@ + problem_time_text(a),
        "state="@ + a.state.label(),
        "trend="@ + a.trend.label(),
        "top_events=["@ + kinds_text(a.top_events@.map_values(|e: Event| e.kind)) + "]"@,
    ];
    let with_times = if event_times_text(a).len() > 0 {
        base.push("event_times=["@ + event_times_text(a) + "]"@)
    } else {
        base
    };
    let with_peer = match a.peer_context {
        Some(p) => with_times.push("rank="@ + dec_digits(p.rank as nat) + "/"@ + dec_digits(p.total as nat)).push(
            "percentile="@ + dec_digits(p.percentile as nat),
        ),
        None => with_times,
    };
    if evidence_text(a.evidence@).len() > 0 {
        with_peer.push("evidence=["@ + evidence_text(a.evidence@) + "]"@)
    } else {
        with_peer
    }
}

/// Appends one more field, separated from earlier ones by `"; "`.
fn push_field(out: &mut String, fields: Ghost<Seq<Seq<char>>>, field: &String)
    requires
        fields@.len() > 0,
        old(out)@ == join_text(fields@, "; "@),
    ensures
        final(out)@ == join_text(fields@.push(field@), "; "@),
{
    proof { lemma_join_push(fields@, "; "@, field@); }
    out.append("; ");
    out.append(field.as_str());
}

/// The relative problem span, `start->end`.
fn format_problem_range(bounds: (i64, i64)) -> (r: String)
    ensures
        r@ == offset_text(bounds.0 as int) + "->"@ + offset_text(bounds.1 as int),
{
    let mut range = format_offset(bounds.0);
    range.append("->");
    let hi = format_offset(bounds.1);
    range.append(hi.as_str());
    range
}

/// The problem span in UTC, or relative when the window start is unknown.
fn format_problem_time(analysis: &CanonicalAnalysis, bounds: (i64, i64)) -> (r: String)
    requires
        offsets_fit(*analysis),
        (bounds.0 as int, bounds.1 as int) == problem_bounds(*analysis),
    ensures
        r@ == problem_time_text(*analysis),
{
    let ghost a = *analysis;
    match analysis.window_start_ts_secs {
        None => format_problem_range(bounds),
        Some(ws) => {
            format_absolute_range(ws + bounds.0, ws + bounds.1)
        },
    }
}

/// The first six fields, which every description has.
fn format_head_fields(analysis: &CanonicalAnalysis) -> (r: String)
    requires
        offsets_fit(*analysis),
    ensures
        r@ == join_text(description_fields(*analysis).take(6), "; "@),
{
    let ghost a = *analysis;
    let bounds = infer_problem_range_bounds(analysis);
    let mut out = String::new();
    out.append("window=");
    let w = format_duration(if analysis.window_secs < 0 { 0 } else { analysis.window_secs });
    out.append(w.as_str());
    let ghost mut fields: Seq<Seq<char>> = seq![out@];
    proof { lemma_join_push(Seq::empty(), "; "@, out@); assert(fields =~= Seq::<Seq<char>>::empty().push(out@)); }

    let mut f = String::new();
    f.append("problem_range=");
    let range = format_problem_range(bounds);
    f.append(range.as_str());
    push_field(&mut out, Ghost(fields), &f);
    proof { fields = fields.push(f@); }

    let mut f = String::new();
    f.append("problem_time=");
    let time = format_problem_time(analysis, bounds);
    f.append(time.as_str());
    push_field(&mut out, Ghost(fields), &f);
    proof { fields = fields.push(f@); }

    let mut f = String::new();
    f.append("state=");
    f.append(analysis.state.as_str());
    push_field(&mut out, Ghost(fields), &f);
    proof { fields = fields.push(f@); }

    let mut f = String::new();
    f.append("trend=");
    f.append(analysis.trend.as_str());
    push_field(&mut out, Ghost(fields), &f);
    proof { fields = fields.push(f@); }

    let kinds = event_kinds(&analysis.top_events);
    let mut f = String::new();
    f.append("top_events=[");
    let k = crate::regression::render_kinds(kinds.as_slice());
    f.append(k.as_str());
    f.append("]");
    push_field(&mut out, Ghost(fields), &f);
    proof { fields = fields.push(f@); }
    assert(fields =~= description_fields(a).take(6));
    out
}

/// Projects an analysis to the single-description form: window, problem span (relative and in
/// UTC), state, trend and top events, then the event times, the peer rank and the evidence when
/// there are any, as `key=value` fields joined by `"; "`.
pub fn project_output(analysis: &CanonicalAnalysis) -> (r: LlmOutput)
    requires
        offsets_fit(*analysis),
    ensures
        r.schema_version == analysis.schema_version,
        r.metric_id@ == analysis.metric_id@,
        r.scope == analysis.scope,
        r.subject_id@ == analysis.subject_id@,
        r.description@ == join_text(description_fields(*analysis), "; "@),
{
    let ghost a = *analysis;
    let mut out = format_head_fields(analysis);
    let ghost mut fields: Seq<Seq<char>> = description_fields(a).take(6);

    let times = summarize_event_times(analysis);
    if !times.as_str().is_empty() {
        let mut f = String::new();
        f.append("event_times=[");
        f.append(times.as_str());
        f.append("]");
        push_field(&mut out, Ghost(fields), &f);
        proof { fields = fields.push(f@); }
    }

    match analysis.peer_context {
        Some(p) => {
            let mut f = String::new();
            f.append("rank=");
            push_usize(&mut f, p.rank);
            f.append("/");
            push_usize(&mut f, p.total);
            push_field(&mut out, Ghost(fields), &f);
            proof { fields = fields.push(f@); }
            let mut f = String::new();
            f.append("percentile=");
            push_usize(&mut f, p.percentile);
            push_field(&mut out, Ghost(fields), &f);
            proof { fields = fields.push(f@); }
        },
        None => {},
    }

    let ev = summarize_evidence(&analysis.evidence);
    if !ev.as_str().is_empty() {
        let mut f = String::new();
        f.append("evidence=[");
        f.append(ev.as_str());
        f.append("]");
        push_field(&mut out, Ghost(fields), &f);
        proof { fields = fields.push(f@); }
    }
    assert(fields =~= description_fields(a));
    LlmOutput {
        schema_version: analysis.schema_version,
        metric_id: analysis.metric_id.clone(),
        scope: analysis.scope,
        subject_id: analysis.subject_id.clone(),
        description: out,
    }
}

/// The kinds of the events, in order.
fn event_kinds(events: &Vec<Event>) -> (r: Vec<EventKind>)
    ensures
        r@ == events@.map_values(|e: Event| e.kind),
{
    let mut out: Vec<EventKind> = Vec::new();
    let mut i: usize = 0;
    while i < events.len()
        invariant
            i <= events@.len(),
            out@ == events@.take(i as int).map_values(|e: Event| e.kind),
        decreases events@.len() - i,
    {
        out.push(events[i].kind);
        assert(events@.take(i + 1).map_values(|e: Event| e.kind) =~= events@.take(i as int).map_values(|e: Event| e.kind).push(events@[i as int].kind));
        i += 1;
    }
    assert(events@.take(events@.len() as int) =~= events@);
    out
}

} // verus!
