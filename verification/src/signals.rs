use vstd::prelude::*;

use crate::events::Event;
use crate::schema::{EventKind, EvidenceItem};
use crate::sorting::{sorted_distinct_i64, strictly_increasing};

verus! {

/// First index of the run of set flags that reaches back from `i` (the flag at `i` itself is
/// not consulted).
pub open spec fn run_start(mask: Seq<bool>, i: int) -> int
    decreases i,
{
    if i <= 0 || !mask[i - 1] { i } else { run_start(mask, i - 1) }
}

/// Last index of the run of set flags that reaches forward from `i` (the flag at `i` itself is
/// not consulted).
pub open spec fn run_end(mask: Seq<bool>, i: int) -> int
    decreases mask.len() - i,
{
    if i + 1 >= mask.len() || !mask[i + 1] { i } else { run_end(mask, i + 1) }
}

proof fn lemma_run_bounds(mask: Seq<bool>, i: int)
    requires
        0 <= i < mask.len(),
    ensures
        0 <= run_start(mask, i) <= i,
        i <= run_end(mask, i) < mask.len(),
    decreases mask.len() - i,
{
    lemma_run_start_bound(mask, i);
    if !(i + 1 >= mask.len() || !mask[i + 1]) {
        lemma_run_bounds(mask, i + 1);
    }
}

proof fn lemma_run_start_bound(mask: Seq<bool>, i: int)
    requires
        0 <= i < mask.len(),
    ensures
        0 <= run_start(mask, i) <= i,
    decreases i,
{
    if !(i <= 0 || !mask[i - 1]) {
        lemma_run_start_bound(mask, i - 1);
    }
}

/// Number of points in the run around `index` whose flags are set on both sides of it.
pub fn local_run(mask: &[bool], index: usize) -> (n: usize)
    requires
        index < mask@.len(),
    ensures
        n == run_end(mask@, index as int) - run_start(mask@, index as int) + 1,
{
    let mut start = index;
    while start > 0 && mask[start - 1]
        invariant
            start <= index < mask@.len(),
            run_start(mask@, start as int) == run_start(mask@, index as int),
        decreases start,
    {
        start -= 1;
    }
    let mut end = index;
    while end < mask.len() - 1 && mask[end + 1]
        invariant
            index <= end < mask@.len(),
            run_end(mask@, end as int) == run_end(mask@, index as int),
        decreases mask@.len() - end,
    {
        end += 1;
    }
    end - start + 1
}

/// Start of the run of set flags that ends the sequence, if the last flag is set.
pub fn tail_run_start(mask: &[bool]) -> (r: Option<usize>)
    ensures
        r is None <==> (mask@.len() == 0 || !mask@.last()),
        r matches Some(s) ==> s as int == run_start(mask@, mask@.len() - 1),
{
    if mask.len() == 0 || !mask[mask.len() - 1] {
        return None;
    }
    let last = mask.len() - 1;
    let mut start = last;
    while start > 0 && mask[start - 1]
        invariant
            start <= last < mask@.len(),
            run_start(mask@, start as int) == run_start(mask@, last as int),
        decreases start,
    {
        start -= 1;
    }
    Some(start)
}

/// The non-zero signs, in order.
pub open spec fn nonzero_signs(signs: Seq<i8>) -> Seq<i8> {
    signs.filter(|x: i8| x != 0)
}

/// Number of adjacent pairs that differ.
pub open spec fn sign_changes(s: Seq<i8>) -> nat
    decreases s.len(),
{
    if s.len() < 2 {
        0
    } else {
        sign_changes(s.drop_last()) + if s[s.len() - 2] != s.last() { 1nat } else { 0nat }
    }
}

/// Counts direction flips: how often a significant move (non-zero sign) goes the other way
/// from the previous significant move; moves marked zero are ignored.
pub fn flip_count(signs: &[i8]) -> (n: usize)
    ensures
        n == sign_changes(nonzero_signs(signs@)),
{
    let ghost pred = |x: i8| x != 0;
    let mut flips: usize = 0;
    let mut prior: i8 = 0;
    let mut i: usize = 0;
    while i < signs.len()
        invariant
            i <= signs.len(),
            pred == (|x: i8| x != 0),
            flips == sign_changes(signs@.take(i as int).filter(pred)),
            flips <= i,
            prior == if signs@.take(i as int).filter(pred).len() == 0 { 0i8 } else { signs@.take(i as int).filter(pred).last() },
        decreases signs.len() - i,
    {
        let s = signs[i];
        let ghost nz = signs@.take(i as int).filter(pred);
        proof {
            signs@.take(i as int).lemma_filter_push(s, pred);
            assert(signs@.take(i + 1) =~= signs@.take(i as int).push(s));
            assert(nz.push(s).drop_last() =~= nz);
            if nz.len() > 0 {
                assert(nz.last() != 0) by {
                    assert(nz.contains(nz.last()));
                    signs@.take(i as int).lemma_filter_contains_rev(pred, nz.last());
                    let k = choose|k: int| 0 <= k < nz.len() && nz[k] == nz.last();
                    signs@.take(i as int).lemma_filter_pred(pred, k);
                }
            }
        }
        if s != 0 {
            if prior != 0 && s != prior {
                flips += 1;
            }
            prior = s;
        }
        i += 1;
    }
    assert(signs@.take(signs.len() as int) =~= signs@);
    flips
}

/// Number of leading values the baseline is taken over: a third, at least three.
pub fn leading_window(len: usize) -> (w: usize)
    requires
        len >= 3,
    ensures
        w == if len / 3 < 3 { 3 } else { len / 3 },
{
    let third = len / 3;
    if third < 3 { 3 } else { third }
}

/// Span of points shown for a local extremum at `index` that dwells for `dwell` points:
/// half the dwell on each side, kept inside the series.
pub fn dwell_span(index: usize, dwell: usize, len: usize) -> (r: (usize, usize))
    requires
        index < len,
    ensures
        r.0 == if index >= dwell / 2 { index - dwell / 2 } else { 0 },
        r.1 == if index + dwell / 2 < len - 1 { index + dwell / 2 } else { len - 1 },
{
    let half = dwell / 2;
    let start = if index >= half { index - half } else { 0 };
    let end = if half < len - 1 - index { index + half } else { len - 1 };
    (start, end)
}

/// A member counts as stable when none of its top events is a spike, drop, regime shift,
/// oscillation or trend.
pub open spec fn stable_member(events: Seq<Event>) -> bool {
    forall|i: int| 0 <= i < events.len() ==> match (#[trigger] events[i]).kind {
        EventKind::Spike | EventKind::Drop | EventKind::RegimeShift | EventKind::Oscillation
        | EventKind::IncreasingTrend | EventKind::DecreasingTrend => false,
        _ => true,
    }
}

/// A member is stable exactly when each of its top events is a sustained high, a sustained low
/// or a peer imbalance; adding an event of one of those kinds keeps it so, and adding any other
/// makes it unstable.
pub proof fn lemma_stable_member_law(events: Seq<Event>, e: Event)
    ensures
        stable_member(events) <==> forall|i: int| 0 <= i < events.len() ==> {
            let k = (#[trigger] events[i]).kind;
            k == EventKind::SustainedHigh || k == EventKind::SustainedLow || k == EventKind::PeerImbalance
        },
        stable_member(events.push(e)) <==> stable_member(events) && (e.kind == EventKind::SustainedHigh
            || e.kind == EventKind::SustainedLow || e.kind == EventKind::PeerImbalance),
{
    let t = events.push(e);
    assert forall|i: int| 0 <= i < events.len() implies t[i] == #[trigger] events[i] by {}
    assert(t[events.len() as int] == e);
    if stable_member(t) {
        assert forall|i: int| 0 <= i < events.len() implies match (#[trigger] events[i]).kind {
            EventKind::Spike | EventKind::Drop | EventKind::RegimeShift | EventKind::Oscillation
            | EventKind::IncreasingTrend | EventKind::DecreasingTrend => false,
            _ => true,
        } by {
            assert(t[i] == events[i]);
        }
    }
}

/// Whether a member's top events describe a stable line.
pub fn is_stable_member(events: &[Event]) -> (b: bool)
    ensures
        b == stable_member(events@),
{
    let mut i: usize = 0;
    while i < events.len()
        invariant
            i <= events.len(),
            forall|q: int| 0 <= q < i ==> match (#[trigger] events@[q]).kind {
                EventKind::Spike | EventKind::Drop | EventKind::RegimeShift | EventKind::Oscillation
                | EventKind::IncreasingTrend | EventKind::DecreasingTrend => false,
                _ => true,
            },
        decreases events.len() - i,
    {
        match events[i].kind {
            EventKind::Spike | EventKind::Drop | EventKind::RegimeShift | EventKind::Oscillation
            | EventKind::IncreasingTrend | EventKind::DecreasingTrend => {
                return false;
            },
            _ => {},
        }
        i += 1;
    }
    true
}

/// A group is examined for a level imbalance between members only with at least two members and
/// two analysed lines, at least two thirds of which are stable.
pub fn peer_imbalance_eligible(member_count: usize, line_count: usize, stable_count: usize) -> (b: bool)
    requires
        member_count >= 2 && line_count >= 2 ==> stable_count * 3 <= usize::MAX && line_count * 2 <= usize::MAX,
    ensures
        b == (member_count >= 2 && line_count >= 2 && stable_count * 3 >= line_count * 2),
{
    if member_count < 2 || line_count < 2 {
        return false;
    }
    !(stable_count * 3 < line_count * 2)
}

/// Time points an event contributes to a group: its own, or its instant when it has none and
/// its span is a single instant.
pub open spec fn contributed_points(e: Event) -> Seq<i64> {
    if e.timepoints_ts_secs@.len() == 0 && e.start_ts_secs == e.end_ts_secs {
        seq![e.start_ts_secs]
    } else {
        e.timepoints_ts_secs@
    }
}

/// Every point some event contributes.
pub open spec fn all_contributed(events: Seq<Event>) -> Set<i64> {
    Set::new(|t: i64| exists|k: int| 0 <= k < events.len() && (#[trigger] contributed_points(events[k])).contains(t))
}

/// The distinct time points the member events of one kind contribute, ascending.
pub fn member_timepoints(events: &[Event]) -> (r: Vec<i64>)
    ensures
        strictly_increasing(r@),
        r@.to_set() == all_contributed(events@),
{
    let mut all: Vec<i64> = Vec::new();
    let mut i: usize = 0;
    while i < events.len()
        invariant
            i <= events.len(),
            all@.to_set() == all_contributed(events@.take(i as int)),
        decreases events.len() - i,
    {
        let e = &events[i];
        let ghost before = all@;
        if e.timepoints_ts_secs.len() == 0 && e.start_ts_secs == e.end_ts_secs {
            all.push(e.start_ts_secs);
        } else {
            let mut j: usize = 0;
            while j < e.timepoints_ts_secs.len()
                invariant
                    j <= e.timepoints_ts_secs@.len(),
                    all@ == before + e.timepoints_ts_secs@.take(j as int),
                decreases e.timepoints_ts_secs@.len() - j,
            {
                all.push(e.timepoints_ts_secs[j]);
                assert(e.timepoints_ts_secs@.take(j + 1) =~= e.timepoints_ts_secs@.take(j as int).push(e.timepoints_ts_secs@[j as int]));
                j += 1;
            }
            assert(e.timepoints_ts_secs@.take(e.timepoints_ts_secs@.len() as int) =~= e.timepoints_ts_secs@);
        }
        proof {
            let c = contributed_points(events@[i as int]);
            assert(all@ =~= before + c);
            assert forall|t: i64| all@.to_set().contains(t) <==> all_contributed(events@.take(i + 1)).contains(t) by {
                let t1 = events@.take(i + 1);
                let t0 = events@.take(i as int);
                assert(all@.to_set().contains(t) == all@.contains(t));
                assert(before.to_set().contains(t) == before.contains(t));
                if all@.contains(t) {
                    let q = choose|q: int| 0 <= q < all@.len() && all@[q] == t;
                    if q < before.len() {
                        assert(before[q] == t);
                        assert(all_contributed(t0).contains(t));
                        let k = choose|k: int| 0 <= k < t0.len() && (#[trigger] contributed_points(t0[k])).contains(t);
                        assert(t1[k] == t0[k]);
                    } else {
                        assert(c[q - before.len()] == t);
                        assert(c.contains(t));
                        assert(t1[i as int] == events@[i as int]);
                    }
                    assert(all_contributed(t1).contains(t));
                }
                if all_contributed(t1).contains(t) {
                    let k = choose|k: int| 0 <= k < t1.len() && (#[trigger] contributed_points(t1[k])).contains(t);
                    if k < i {
                        assert(t0[k] == t1[k]);
                        assert(all_contributed(t0).contains(t));
                        assert(before.contains(t));
                        let q = choose|q: int| 0 <= q < before.len() && before[q] == t;
                        assert(all@[q] == t);
                    } else {
                        assert(c.contains(t));
                        let q = choose|q: int| 0 <= q < c.len() && c[q] == t;
                        assert(all@[before.len() + q] == t);
                    }
                    assert(all@.contains(t));
                }
            }
        }
        i += 1;
    }
    assert(events@.take(events.len() as int) =~= events@);
    sorted_distinct_i64(all.as_slice())
}

/// Earliest start and latest end among the member events of one kind.
pub fn member_span(events: &[Event]) -> (r: (i64, i64))
    requires
        events@.len() > 0,
    ensures
        exists|k: int| 0 <= k < events@.len() && r.0 == (#[trigger] events@[k]).start_ts_secs,
        exists|k: int| 0 <= k < events@.len() && r.1 == (#[trigger] events@[k]).end_ts_secs,
        forall|k: int| 0 <= k < events@.len() ==> r.0 <= (#[trigger] events@[k]).start_ts_secs && events@[k].end_ts_secs <= r.1,
{
    let mut lo = events[0].start_ts_secs;
    let mut hi = events[0].end_ts_secs;
    let mut i: usize = 1;
    while i < events.len()
        invariant
            1 <= i <= events@.len(),
            exists|k: int| 0 <= k < events@.len() && lo == (#[trigger] events@[k]).start_ts_secs,
            exists|k: int| 0 <= k < events@.len() && hi == (#[trigger] events@[k]).end_ts_secs,
            forall|k: int| 0 <= k < i ==> lo <= (#[trigger] events@[k]).start_ts_secs && events@[k].end_ts_secs <= hi,
        decreases events@.len() - i,
    {
        if events[i].start_ts_secs < lo {
            lo = events[i].start_ts_secs;
        }
        if events[i].end_ts_secs > hi {
            hi = events[i].end_ts_secs;
        }
        i += 1;
    }
    (lo, hi)
}

/// The distinct time points of two lists, ascending.
pub fn merge_timepoints(existing: &[i64], added: &[i64]) -> (r: Vec<i64>)
    ensures
        strictly_increasing(r@),
        r@.to_set() == existing@.to_set().union(added@.to_set()),
{
    let mut all: Vec<i64> = Vec::new();
    let mut i: usize = 0;
    while i < existing.len()
        invariant
            i <= existing.len(),
            all@ == existing@.take(i as int),
        decreases existing.len() - i,
    {
        all.push(existing[i]);
        assert(existing@.take(i + 1) =~= existing@.take(i as int).push(existing@[i as int]));
        i += 1;
    }
    let mut j: usize = 0;
    while j < added.len()
        invariant
            j <= added.len(),
            all@ == existing@ + added@.take(j as int),
        decreases added.len() - j,
    {
        all.push(added[j]);
        assert(added@.take(j + 1) =~= added@.take(j as int).push(added@[j as int]));
        j += 1;
    }
    assert(existing@.take(existing.len() as int) =~= existing@);
    assert(added@.take(added.len() as int) =~= added@);
    assert(all@.to_set() =~= existing@.to_set().union(added@.to_set())) by {
        assert forall|t: i64| all@.to_set().contains(t) <==> existing@.to_set().union(added@.to_set()).contains(t) by {
            if all@.contains(t) {
                let q = choose|q: int| 0 <= q < all@.len() && all@[q] == t;
                if q < existing@.len() {
                    assert(existing@[q] == t);
                } else {
                    assert(added@[q - existing@.len()] == t);
                }
            }
            if existing@.contains(t) {
                let q = choose|q: int| 0 <= q < existing@.len() && existing@[q] == t;
                assert(all@[q] == t);
            }
            if added@.contains(t) {
                let q = choose|q: int| 0 <= q < added@.len() && added@[q] == t;
                assert(all@[existing@.len() + q] == t);
            }
        }
    }
    sorted_distinct_i64(all.as_slice())
}

/// `existing` extended, one item after another, by the items whose label it does not yet carry.
pub open spec fn absorb_labels(existing: Seq<EvidenceItem>, items: Seq<EvidenceItem>) -> Seq<EvidenceItem>
    decreases items.len(),
{
    if items.len() == 0 {
        existing
    } else {
        let r = absorb_labels(existing, items.drop_last());
        if crate::events::has_label(r, items.last().label@) { r } else { r.push(items.last()) }
    }
}

/// Adds the first two of `incoming` to `existing`, skipping labels already present.
pub fn absorb_evidence(existing: &mut Vec<EvidenceItem>, incoming: &[EvidenceItem])
    ensures
        final(existing)@ == absorb_labels(old(existing)@, if incoming@.len() <= 2 { incoming@ } else { incoming@.take(2) }),
{
    let ghost start = existing@;
    let n: usize = if incoming.len() <= 2 { incoming.len() } else { 2 };
    let ghost two = if incoming@.len() <= 2 { incoming@ } else { incoming@.take(2) };
    let mut j: usize = 0;
    while j < n
        invariant
            j <= n,
            n == two.len(),
            n <= incoming@.len(),
            forall|q: int| 0 <= q < n ==> two[q] == incoming@[q],
            existing@ == absorb_labels(start, two.take(j as int)),
        decreases n - j,
    {
        proof {
            assert(two.take(j + 1).drop_last() =~= two.take(j as int));
        }
        if !crate::events::contains_label(existing, &incoming[j].label) {
            existing.push(incoming[j].duplicate());
        }
        j += 1;
    }
    assert(two.take(n as int) =~= two);
}

} // verus!
