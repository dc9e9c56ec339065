use vstd::prelude::*;
use vstd::relations::sorted_by;
use std::collections::HashMap;

use crate::schema::{EventKind, EvidenceItem, PeerContext, StateKind};
use crate::sorting::{lemma_filter_insert, lemma_insert_multiset};

verus! {

broadcast use vstd::seq_lib::group_to_multiset_ensures;

/// A detected event as the ranking logic sees it. The floating-point score is carried as its key
/// in the IEEE total order: the score's bits with the sign bit set when the sign is clear, all
/// bits inverted when it is set. A higher key is a later score in that order, equal keys are
/// equal bits.
#[derive(Clone, Debug, PartialEq)]
pub struct Event {
    pub kind: EventKind,
    pub score_key: u64,
    pub start_ts_secs: i64,
    pub end_ts_secs: i64,
    pub timepoints_ts_secs: Vec<i64>,
    pub evidence: Vec<EvidenceItem>,
    pub impacted_members: usize,
}

/// `a` ranks no later than `b`: higher score first, then lower kind priority, then earlier start.
pub open spec fn ranks_before(a: Event, b: Event) -> bool {
    a.score_key > b.score_key || (a.score_key == b.score_key && (a.kind.rank() < b.kind.rank() || (
    a.kind.rank() == b.kind.rank() && a.start_ts_secs <= b.start_ts_secs)))
}

pub open spec fn rank_order() -> spec_fn(Event, Event) -> bool {
    |a: Event, b: Event| ranks_before(a, b)
}

/// `a` and `b` are indistinguishable by the ranking.
pub open spec fn rank_tie(a: Event, b: Event) -> bool {
    a.score_key == b.score_key && a.kind.rank() == b.kind.rank() && a.start_ts_secs == b.start_ts_secs
}

/// Events that tie with `x`.
pub open spec fn ties_with(x: Event) -> spec_fn(Event) -> bool {
    |e: Event| rank_tie(e, x)
}

/// The ranking is a stable sort of `before` by `ranks_before`: ordered, the same events, and
/// events that tie keep their relative order.
pub open spec fn stably_ranked(after: Seq<Event>, before: Seq<Event>) -> bool {
    &&& sorted_by(after, rank_order())
    &&& after.to_multiset() == before.to_multiset()
    &&& forall|x: Event| #[trigger] after.filter(ties_with(x)) == before.filter(ties_with(x))
}

fn precedes(a: &Event, b: &Event) -> (r: bool)
    ensures
        r == ranks_before(*a, *b),
{
    if a.score_key != b.score_key {
        a.score_key > b.score_key
    } else {
        let pa = a.kind.priority();
        let pb = b.kind.priority();
        if pa != pb {
            pa < pb
        } else {
            a.start_ts_secs <= b.start_ts_secs
        }
    }
}

/// Position after every ranked event that does not rank strictly after `y`.
fn stable_position(out: &Vec<Event>, y: &Event) -> (p: usize)
    requires
        sorted_by(out@, rank_order()),
    ensures
        p <= out@.len(),
        forall|q: int| 0 <= q < p ==> ranks_before(#[trigger] out@[q], *y),
        forall|q: int| p <= q < out@.len() ==> !ranks_before(#[trigger] out@[q], *y),
{
    let mut p: usize = 0;
    while p < out.len() && precedes(&out[p], y)
        invariant
            p <= out@.len(),
            forall|q: int| 0 <= q < p ==> ranks_before(#[trigger] out@[q], *y),
        decreases out@.len() - p,
    {
        p += 1;
    }
    assert forall|q: int| p <= q < out@.len() implies !ranks_before(#[trigger] out@[q], *y) by {
        if q > p {
            assert((rank_order())(out@[p as int], out@[q]));
        }
    }
    p
}

/// Sorts events by descending score, then ascending kind priority, then ascending start,
/// keeping the input order among events that tie on all three.
pub fn sort_events(events: &mut Vec<Event>)
    ensures
        stably_ranked(final(events)@, old(events)@),
{
    let mut input: Vec<Event> = Vec::new();
    std::mem::swap(&mut input, events);
    let ghost orig = input@;
    let n0 = input.len();
    let mut out: Vec<Event> = Vec::new();
    let mut i: usize = 0;
    while input.len() > 0
        invariant
            i + input@.len() == orig.len(),
            orig.len() == n0,
            input@ == orig.skip(i as int),
            sorted_by(out@, rank_order()),
            out@.to_multiset() == orig.take(i as int).to_multiset(),
            forall|x: Event| #[trigger] out@.filter(ties_with(x)) == orig.take(i as int).filter(ties_with(x)),
        decreases input@.len(),
    {
        let y = input.remove(0);
        assert(y == orig[i as int]);
        assert(input@ =~= orig.skip(i + 1));
        let p = stable_position(&out, &y);
        let ghost before = out@;
        proof {
            lemma_insert_multiset(before, p as int, y);
            assert(orig.take(i + 1) =~= orig.take(i as int).push(y));
            assert forall|x: Event| #[trigger] before.insert(p as int, y).filter(ties_with(x)) == orig.take(i + 1).filter(ties_with(x)) by {
                let pred = ties_with(x);
                if pred(y) {
                    assert forall|q: int| p <= q < before.len() implies !pred(#[trigger] before[q]) by {
                        if pred(before[q]) {
                            assert(ranks_before(before[q], y));
                        }
                    }
                }
                lemma_filter_insert(before, p as int, y, pred);
                orig.take(i as int).lemma_filter_push(y, pred);
            }
        }
        out.insert(p, y);
        assert(sorted_by(out@, rank_order())) by {
            assert forall|a: int, b: int| 0 <= a < b < out@.len() implies #[trigger] (rank_order())(out@[a], out@[b]) by {
                if a < p && b == p as int {
                } else if a == p as int && b > p {
                    assert(!ranks_before(before[b - 1], y));
                } else if a < p && b > p {
                    assert(ranks_before(before[a], y));
                    assert(!ranks_before(before[b - 1], y));
                } else if a > p {
                    assert((rank_order())(before[a - 1], before[b - 1]));
                } else {
                    assert((rank_order())(before[a], before[b]));
                }
            }
        }
        i += 1;
    }
    proof {
        assert(orig.take(orig.len() as int) =~= orig);
    }
    *events = out;
}

/// The key stands for a NaN score. Keys of NaNs with the sign bit clear lie above the key of
/// positive infinity, those with the sign bit set below the key of negative infinity.
pub open spec fn key_is_nan(key: u64) -> bool {
    key > 0xFFF0_0000_0000_0000 || key < 0x000F_FFFF_FFFF_FFFF
}

/// The key with negative zero read as positive zero (the two keys are adjacent).
pub open spec fn zero_folded(key: u64) -> u64 {
    if key == 0x7FFF_FFFF_FFFF_FFFF { 0x8000_0000_0000_0000 } else { key }
}

/// The score keyed `a` is greater than the score keyed `b` as floating-point `>` compares them:
/// never when either is NaN, and negative zero equal to positive zero.
pub open spec fn score_gt(a: u64, b: u64) -> bool {
    !key_is_nan(a) && !key_is_nan(b) && zero_folded(a) > zero_folded(b)
}

/// Compares two scores by their keys as floating-point `>` does.
pub fn score_greater(a: u64, b: u64) -> (r: bool)
    ensures
        r == score_gt(a, b),
{
    let nan_a = a > 0xFFF0_0000_0000_0000 || a < 0x000F_FFFF_FFFF_FFFF;
    let nan_b = b > 0xFFF0_0000_0000_0000 || b < 0x000F_FFFF_FFFF_FFFF;
    let fa: u64 = if a == 0x7FFF_FFFF_FFFF_FFFF { 0x8000_0000_0000_0000 } else { a };
    let fb: u64 = if b == 0x7FFF_FFFF_FFFF_FFFF { 0x8000_0000_0000_0000 } else { b };
    !nan_a && !nan_b && fa > fb
}

/// The event kept for `kind` after reading `s` in order: the first event of that kind, replaced
/// by each later one of that kind whose score is greater than the one kept.
pub open spec fn champion(s: Seq<Event>, kind: EventKind) -> Option<Event>
    decreases s.len(),
{
    if s.len() == 0 {
        None
    } else {
        let c = champion(s.drop_last(), kind);
        if s.last().kind != kind {
            c
        } else {
            match c {
                None => Some(s.last()),
                Some(e) => if score_gt(s.last().score_key, e.score_key) { Some(s.last()) } else { Some(e) },
            }
        }
    }
}

/// `r` keeps exactly one event per kind of `s`: the one `champion` keeps.
pub open spec fn one_per_kind(r: Seq<Event>, s: Seq<Event>) -> bool {
    &&& forall|a: int, b: int| 0 <= a < b < r.len() ==> (#[trigger] r[a]).kind != (#[trigger] r[b]).kind
    &&& forall|k: int| 0 <= k < r.len() ==> champion(s, (#[trigger] r[k]).kind) == Some(r[k])
    &&& forall|j: int| 0 <= j < s.len() ==> exists|k: int| 0 <= k < r.len() && (#[trigger] r[k]).kind == (#[trigger] s[j]).kind
}

/// What `champion` keeps: an event of the kind, from the sequence, present exactly when the
/// sequence has an event of that kind.
proof fn lemma_champion_member(s: Seq<Event>, kind: EventKind)
    ensures
        champion(s, kind) is Some <==> has_kind(s, kind),
        champion(s, kind) matches Some(e) ==> e.kind == kind && s.contains(e),
    decreases s.len(),
{
    if s.len() > 0 {
        let d = s.drop_last();
        lemma_champion_member(d, kind);
        assert forall|i: int| 0 <= i < d.len() implies s[i] == #[trigger] d[i] by {}
        if has_kind(d, kind) {
            let i = choose|i: int| 0 <= i < d.len() && (#[trigger] d[i]).kind == kind;
            assert(s[i].kind == kind);
        }
        if has_kind(s, kind) && s.last().kind != kind {
            let i = choose|i: int| 0 <= i < s.len() && (#[trigger] s[i]).kind == kind;
            assert(i < s.len() - 1);
            assert(d[i].kind == kind);
        }
        if s.last().kind == kind {
            assert(s[s.len() - 1].kind == kind);
        }
        match champion(d, kind) {
            Some(e) => {
                let i = choose|i: int| 0 <= i < d.len() && d[i] == e;
                assert(s[i] == e);
            },
            None => {},
        }
        assert(s[s.len() - 1] == s.last());
    }
}

/// The kept event of each kind seen so far, held under the kind's priority.
pub open spec fn kept_by_priority(s: Seq<Event>, m: Map<usize, Event>) -> bool {
    &&& forall|kind: EventKind| #[trigger] champion(s, kind)
        == if m.contains_key(kind.rank() as usize) { Some(m[kind.rank() as usize]) } else { None }
    &&& forall|r: usize| #[trigger] m.contains_key(r) ==> m[r].kind.rank() == r
}

/// Keeps one event per kind: reading the events in order, the first of each kind, replaced by
/// every later one whose score is greater as floating-point `>` compares scores. The kept events
/// are held in a map keyed by kind priority and come out in priority order.
pub fn dedup_events(events: Vec<Event>) -> (r: Vec<Event>)
    ensures
        one_per_kind(r@, events@),
        forall|a: int, b: int| 0 <= a < b < r@.len() ==> (#[trigger] r@[a]).kind.rank() < (#[trigger] r@[b]).kind.rank(),
{
    broadcast use vstd::std_specs::hash::group_hash_axioms;
    let mut input = events;
    let ghost orig = input@;
    let n0 = input.len();
    let mut kept: HashMap<usize, Event> = HashMap::new();
    let mut i: usize = 0;
    assert(orig.take(0) =~= Seq::<Event>::empty());
    while input.len() > 0
        invariant
            i + input@.len() == orig.len(),
            orig.len() == n0,
            input@ == orig.skip(i as int),
            kept_by_priority(orig.take(i as int), kept@),
        decreases input@.len(),
    {
        let y = input.remove(0);
        assert(y == orig[i as int]);
        assert(input@ =~= orig.skip(i + 1));
        let ghost t = orig.take(i as int);
        let ghost t1 = orig.take(i + 1);
        let ghost m0 = kept@;
        assert(t1.drop_last() =~= t);
        assert(t1.last() == y);
        let p = y.kind.priority();
        let replace = match kept.get(&p) {
            Some(e) => score_greater(y.score_key, e.score_key),
            None => true,
        };
        if replace {
            kept.insert(p, y);
        }
        proof {
            assert forall|kind: EventKind| #[trigger] champion(t1, kind)
                == if kept@.contains_key(kind.rank() as usize) { Some(kept@[kind.rank() as usize]) } else { None } by {
                assert(champion(t, kind) == if m0.contains_key(kind.rank() as usize) { Some(m0[kind.rank() as usize]) } else { None });
                if kind != y.kind {
                    crate::schema::lemma_priority_injective(kind, y.kind);
                    assert(kind.rank() as usize != p);
                }
            }
            assert forall|r: usize| #[trigger] kept@.contains_key(r) implies kept@[r].kind.rank() == r by {
                if r != p {
                    assert(m0.contains_key(r));
                }
            }
        }
        i += 1;
    }
    assert(orig.take(orig.len() as int) =~= orig);
    assert(orig == events@);
    let ghost full = kept@;
    let mut out: Vec<Event> = Vec::new();
    let mut q: usize = 0;
    while q < 9
        invariant
            q <= 9,
            forall|r: usize| #[trigger] kept@.contains_key(r) <==> full.contains_key(r) && r >= q,
            forall|r: usize| kept@.contains_key(r) ==> #[trigger] kept@[r] == full[r],
            forall|r: usize| #[trigger] full.contains_key(r) ==> full[r].kind.rank() == r,
            forall|k: int| 0 <= k < out@.len() ==> {
                &&& full.contains_key((#[trigger] out@[k]).kind.rank() as usize)
                &&& full[out@[k].kind.rank() as usize] == out@[k]
                &&& out@[k].kind.rank() < q
            },
            forall|a: int, b: int| 0 <= a < b < out@.len() ==> (#[trigger] out@[a]).kind.rank() < (#[trigger] out@[b]).kind.rank(),
            forall|r: usize| r < q && #[trigger] full.contains_key(r) ==> exists|k: int| 0 <= k < out@.len() && (#[trigger] out@[k]).kind.rank() == r,
        decreases 9 - q,
    {
        let ghost before = out@;
        match kept.remove(&q) {
            Some(e) => {
                assert(full.contains_key(q) && e == full[q]);
                out.push(e);
                assert(out@[before.len() as int] == e);
            },
            None => {
                assert(!full.contains_key(q));
            },
        }
        assert forall|r: usize| r < q + 1 && #[trigger] full.contains_key(r) implies exists|k: int| 0 <= k < out@.len() && (#[trigger] out@[k]).kind.rank() == r by {
            if r < q {
                let k = choose|k: int| 0 <= k < before.len() && (#[trigger] before[k]).kind.rank() == r;
                assert(out@[k] == before[k]);
            } else {
                assert(out@[before.len() as int].kind.rank() == r);
            }
        }
        q += 1;
    }
    proof {
        let s = events@;
        assert forall|a: int, b: int| 0 <= a < b < out@.len() implies (#[trigger] out@[a]).kind != (#[trigger] out@[b]).kind by {
            assert(out@[a].kind.rank() < out@[b].kind.rank());
        }
        assert forall|k: int| 0 <= k < out@.len() implies champion(s, (#[trigger] out@[k]).kind) == Some(out@[k]) by {
            assert(full.contains_key(out@[k].kind.rank() as usize));
        }
        assert forall|j: int| 0 <= j < s.len() implies exists|k: int| 0 <= k < out@.len() && (#[trigger] out@[k]).kind == (#[trigger] s[j]).kind by {
            let kind = s[j].kind;
            lemma_champion_member(s, kind);
            assert(has_kind(s, kind));
            let r = kind.rank() as usize;
            assert(full.contains_key(r));
            assert(r < 9);
            let k = choose|k: int| 0 <= k < out@.len() && (#[trigger] out@[k]).kind.rank() == r;
            crate::schema::lemma_priority_injective(out@[k].kind, kind);
        }
    }
    out
}

/// No score among the events is NaN.
pub open spec fn no_nan_scores(s: Seq<Event>) -> bool {
    forall|i: int| 0 <= i < s.len() ==> !key_is_nan((#[trigger] s[i]).score_key)
}

/// Event `w` has the greatest score of its kind (negative zero counting as zero), and every
/// earlier event of its kind a smaller one.
pub open spec fn best_at(s: Seq<Event>, w: int) -> bool {
    &&& 0 <= w < s.len()
    &&& forall|j: int| 0 <= j < s.len() && #[trigger] s[j].kind == s[w].kind ==> zero_folded(s[j].score_key) <= zero_folded(s[w].score_key)
        && (j < w ==> zero_folded(s[j].score_key) < zero_folded(s[w].score_key))
}

/// `e` is the best event of its kind in `s`, in the sense of `best_at`.
pub open spec fn best_of_kind(s: Seq<Event>, e: Event) -> bool {
    exists|w: int| #[trigger] best_at(s, w) && s[w] == e
}

/// Without NaN scores, the event kept for a kind has the greatest score of its kind (negative
/// zero counting as zero), and no earlier event of that kind has as great a score.
pub proof fn lemma_champion_is_best(s: Seq<Event>, kind: EventKind)
    requires
        no_nan_scores(s),
    ensures
        champion(s, kind) matches Some(e) ==> e.kind == kind && best_of_kind(s, e),
    decreases s.len(),
{
    if s.len() > 0 {
        let d = s.drop_last();
        let n = s.len() - 1;
        assert forall|i: int| 0 <= i < d.len() implies s[i] == #[trigger] d[i] by {}
        assert(no_nan_scores(d)) by {
            assert forall|i: int| 0 <= i < d.len() implies !key_is_nan((#[trigger] d[i]).score_key) by {
                assert(s[i] == d[i]);
            }
        }
        lemma_champion_is_best(d, kind);
        lemma_champion_member(d, kind);
        lemma_champion_member(s, kind);
        assert(s[n] == s.last());
        assert(!key_is_nan(s[n].score_key));
        if s.last().kind == kind {
            match champion(d, kind) {
                None => {
                    assert forall|j: int| 0 <= j < n implies #[trigger] s[j].kind != kind by {
                        assert(d[j] == s[j]);
                        if s[j].kind == kind {
                            assert(has_kind(d, kind));
                        }
                    }
                    assert(best_at(s, n));
                },
                Some(e0) => {
                    let w0 = choose|w: int| #[trigger] best_at(d, w) && d[w] == e0;
                    assert(s[w0] == e0);
                    assert(!key_is_nan(e0.score_key)) by {
                        assert(!key_is_nan(s[w0].score_key));
                    }
                    if score_gt(s.last().score_key, e0.score_key) {
                        assert forall|j: int| 0 <= j < s.len() && #[trigger] s[j].kind == s[n].kind implies zero_folded(s[j].score_key) <= zero_folded(s[n].score_key)
                            && (j < n ==> zero_folded(s[j].score_key) < zero_folded(s[n].score_key)) by {
                            if j < n {
                                assert(d[j] == s[j]);
                                assert(d[j].kind == d[w0].kind);
                            }
                        }
                        assert(best_at(s, n));
                    } else {
                        assert forall|j: int| 0 <= j < s.len() && #[trigger] s[j].kind == s[w0].kind implies zero_folded(s[j].score_key) <= zero_folded(s[w0].score_key)
                            && (j < w0 ==> zero_folded(s[j].score_key) < zero_folded(s[w0].score_key)) by {
                            if j < n {
                                assert(d[j] == s[j]);
                                assert(d[j].kind == d[w0].kind);
                            }
                        }
                        assert(best_at(s, w0));
                    }
                },
            }
        } else {
            match champion(d, kind) {
                None => {},
                Some(e0) => {
                    let w0 = choose|w: int| #[trigger] best_at(d, w) && d[w] == e0;
                    assert(s[w0] == e0);
                    assert forall|j: int| 0 <= j < s.len() && #[trigger] s[j].kind == s[w0].kind implies zero_folded(s[j].score_key) <= zero_folded(s[w0].score_key)
                        && (j < w0 ==> zero_folded(s[j].score_key) < zero_folded(s[w0].score_key)) by {
                        if j < n {
                            assert(d[j] == s[j]);
                            assert(d[j].kind == d[w0].kind);
                        }
                    }
                    assert(best_at(s, w0));
                },
            }
        }
    }
}

/// The kinds of a sequence of events.
pub open spec fn kinds_of(s: Seq<Event>) -> Set<EventKind> {
    s.map_values(|e: Event| e.kind).to_set()
}

/// Deduplication, without NaN scores: the result has one event for each kind of the input and
/// no other, as many events as there are kinds, and each kept event is an input event with the
/// greatest score of its kind, the earliest among equal scores.
pub proof fn lemma_dedup_law(events: Seq<Event>, r: Seq<Event>)
    requires
        one_per_kind(r, events),
        no_nan_scores(events),
    ensures
        kinds_of(r) == kinds_of(events),
        r.len() == kinds_of(events).len(),
        forall|k: int| 0 <= k < r.len() ==> best_of_kind(events, #[trigger] r[k]),
{
    assert forall|k: int| 0 <= k < r.len() implies best_of_kind(events, #[trigger] r[k]) by {
        lemma_champion_is_best(events, r[k].kind);
    }
    let rk = r.map_values(|e: Event| e.kind);
    let ek = events.map_values(|e: Event| e.kind);
    assert forall|x: EventKind| rk.to_set().contains(x) <==> ek.to_set().contains(x) by {
        if rk.to_set().contains(x) {
            let k = choose|k: int| 0 <= k < rk.len() && rk[k] == x;
            assert(champion(events, r[k].kind) == Some(r[k]));
            lemma_champion_member(events, x);
            let i = choose|i: int| 0 <= i < events.len() && (#[trigger] events[i]).kind == x;
            assert(ek[i] == x);
        }
        if ek.to_set().contains(x) {
            let j = choose|j: int| 0 <= j < ek.len() && ek[j] == x;
            assert(events[j].kind == x);
            let k = choose|k: int| 0 <= k < r.len() && (#[trigger] r[k]).kind == events[j].kind;
            assert(rk[k] == x);
        }
    }
    assert(kinds_of(r) =~= kinds_of(events));
    assert(rk.no_duplicates()) by {
        assert forall|a: int, b: int| 0 <= a < rk.len() && 0 <= b < rk.len() && a != b implies rk[a] != rk[b] by {
            if a < b {
                assert(r[a].kind != r[b].kind);
            } else {
                assert(r[b].kind != r[a].kind);
            }
        }
    }
    rk.unique_seq_to_set();
}

/// Some event of the sequence has the given kind.
pub open spec fn has_kind(s: Seq<Event>, kind: EventKind) -> bool {
    exists|i: int| 0 <= i < s.len() && (#[trigger] s[i]).kind == kind
}

/// State implied by a set of events: elevated by a sustained high, else depressed by a sustained
/// low, else volatile by an oscillation, else stable.
pub open spec fn state_of(s: Seq<Event>) -> StateKind {
    if has_kind(s, EventKind::SustainedHigh) {
        StateKind::Elevated
    } else if has_kind(s, EventKind::SustainedLow) {
        StateKind::Depressed
    } else if has_kind(s, EventKind::Oscillation) {
        StateKind::Volatile
    } else {
        StateKind::Stable
    }
}

/// The state reads only three kinds: elevated exactly when some event is a sustained high,
/// depressed exactly when some is a sustained low and none a sustained high, volatile exactly
/// when some is an oscillation and none is sustained, stable otherwise; an event of any other
/// kind added to the events never changes the state.
pub proof fn lemma_state_law(s: Seq<Event>, e: Event)
    ensures
        (state_of(s) == StateKind::Elevated) <==> (exists|i: int| 0 <= i < s.len() && (#[trigger] s[i]).kind == EventKind::SustainedHigh),
        (state_of(s) == StateKind::Depressed) <==> (
            (forall|i: int| 0 <= i < s.len() ==> (#[trigger] s[i]).kind != EventKind::SustainedHigh)
            && exists|i: int| 0 <= i < s.len() && (#[trigger] s[i]).kind == EventKind::SustainedLow),
        (state_of(s) == StateKind::Volatile) <==> (
            (forall|i: int| 0 <= i < s.len() ==> (#[trigger] s[i]).kind != EventKind::SustainedHigh && s[i].kind != EventKind::SustainedLow)
            && exists|i: int| 0 <= i < s.len() && (#[trigger] s[i]).kind == EventKind::Oscillation),
        (state_of(s) == StateKind::Stable) <==> (forall|i: int| 0 <= i < s.len() ==>
            (#[trigger] s[i]).kind != EventKind::SustainedHigh && s[i].kind != EventKind::SustainedLow && s[i].kind != EventKind::Oscillation),
        e.kind != EventKind::SustainedHigh && e.kind != EventKind::SustainedLow && e.kind != EventKind::Oscillation
            ==> state_of(s.push(e)) == state_of(s),
{
    let t = s.push(e);
    assert forall|i: int| 0 <= i < s.len() implies t[i] == #[trigger] s[i] by {}
    assert(t[s.len() as int] == e);
    if e.kind != EventKind::SustainedHigh && e.kind != EventKind::SustainedLow && e.kind != EventKind::Oscillation {
        assert forall|k: EventKind| k == EventKind::SustainedHigh || k == EventKind::SustainedLow || k == EventKind::Oscillation
            implies has_kind(t, k) == has_kind(s, k) by {
            if has_kind(t, k) {
                let i = choose|i: int| 0 <= i < t.len() && (#[trigger] t[i]).kind == k;
                assert(i < s.len());
                assert(s[i].kind == k);
            }
            if has_kind(s, k) {
                let i = choose|i: int| 0 <= i < s.len() && (#[trigger] s[i]).kind == k;
                assert(t[i].kind == k);
            }
        }
    }
}

fn any_kind(events: &[Event], kind: EventKind) -> (b: bool)
    ensures
        b == has_kind(events@, kind),
{
    let mut i: usize = 0;
    while i < events.len()
        invariant
            i <= events.len(),
            forall|q: int| 0 <= q < i ==> (#[trigger] events@[q]).kind != kind,
        decreases events.len() - i,
    {
        if events[i].kind.same(kind) {
            return true;
        }
        i += 1;
    }
    false
}

/// Derives the overall state from the events.
pub fn derive_state(events: &[Event]) -> (st: StateKind)
    ensures
        st == state_of(events@),
{
    if any_kind(events, EventKind::SustainedHigh) {
        StateKind::Elevated
    } else if any_kind(events, EventKind::SustainedLow) {
        StateKind::Depressed
    } else if any_kind(events, EventKind::Oscillation) {
        StateKind::Volatile
    } else {
        StateKind::Stable
    }
}

/// At most the first two items.
pub open spec fn first_two(items: Seq<EvidenceItem>) -> Seq<EvidenceItem> {
    if items.len() <= 2 { items } else { items.take(2) }
}

/// The first two evidence items of every event, event after event.
pub open spec fn evidence_candidates(events: Seq<Event>) -> Seq<EvidenceItem>
    decreases events.len(),
{
    if events.len() == 0 {
        Seq::empty()
    } else {
        evidence_candidates(events.drop_last()) + first_two(events.last().evidence@)
    }
}

/// Some item carries the label.
pub open spec fn has_label(items: Seq<EvidenceItem>, label: Seq<char>) -> bool {
    exists|j: int| 0 <= j < items.len() && (#[trigger] items[j]).label@ == label
}

/// The items whose label did not occur earlier, in order.
pub open spec fn first_per_label(items: Seq<EvidenceItem>) -> Seq<EvidenceItem>
    decreases items.len(),
{
    if items.len() == 0 {
        Seq::empty()
    } else {
        let r = first_per_label(items.drop_last());
        if has_label(r, items.last().label@) { r } else { r.push(items.last()) }
    }
}

/// Whether an item with this label is present.
pub fn contains_label(items: &Vec<EvidenceItem>, label: &String) -> (b: bool)
    ensures
        b == has_label(items@, label@),
{
    let mut j: usize = 0;
    while j < items.len()
        invariant
            j <= items@.len(),
            forall|q: int| 0 <= q < j ==> (#[trigger] items@[q]).label@ != label@,
        decreases items@.len() - j,
    {
        if items[j].label == *label {
            return true;
        }
        j += 1;
    }
    false
}

/// Appends `item` unless an item with its label is already present.
fn push_new_label(out: &mut Vec<EvidenceItem>, item: &EvidenceItem)
    ensures
        final(out)@ == if has_label(old(out)@, item.label@) { old(out)@ } else { old(out)@.push(*item) },
{
    if !contains_label(out, &item.label) {
        out.push(item.duplicate());
    }
}

/// Collects the first two evidence items of each event, skipping labels already collected.
pub fn collect_analysis_evidence(events: &[Event]) -> (r: Vec<EvidenceItem>)
    ensures
        r@ == first_per_label(evidence_candidates(events@)),
{
    let mut out: Vec<EvidenceItem> = Vec::new();
    let mut i: usize = 0;
    while i < events.len()
        invariant
            i <= events.len(),
            out@ == first_per_label(evidence_candidates(events@.take(i as int))),
        decreases events.len() - i,
    {
        let ev = &events[i];
        let ghost base = evidence_candidates(events@.take(i as int));
        let ghost two = first_two(ev.evidence@);
        proof {
            assert(events@.take(i + 1).drop_last() =~= events@.take(i as int));
            assert(evidence_candidates(events@.take(i + 1)) == base + two);
        }
        let m: usize = if ev.evidence.len() < 2 { ev.evidence.len() } else { 2 };
        assert(two.len() == m);
        let mut j: usize = 0;
        while j < m
            invariant
                j <= m,
                m <= ev.evidence@.len(),
                two.len() == m,
                forall|q: int| 0 <= q < m ==> two[q] == ev.evidence@[q],
                out@ == first_per_label(base + two.take(j as int)),
            decreases m - j,
        {
            proof {
                assert((base + two.take(j + 1)).drop_last() =~= base + two.take(j as int));
                assert((base + two.take(j + 1)).last() == ev.evidence@[j as int]);
            }
            push_new_label(&mut out, &ev.evidence[j]);
            j += 1;
        }
        assert(two.take(m as int) =~= two);
        i += 1;
    }
    assert(events@.take(events.len() as int) =~= events@);
    out
}

/// The first three of a ranked sequence.
pub open spec fn top_three(s: Seq<Event>) -> Seq<Event> {
    if s.len() <= 3 { s } else { s.take(3) }
}

/// What an analysis keeps of its ranked events: the top three, the state and the evidence.
#[derive(Debug)]
pub struct RankedEvents {
    pub top_events: Vec<Event>,
    pub state: StateKind,
    pub evidence: Vec<EvidenceItem>,
}

/// Ranks the events of one series: sorts them, derives the state from all of them, keeps the
/// top three and collects the evidence of those.
pub fn rank_line_events(events: Vec<Event>) -> (r: RankedEvents)
    ensures
        exists|ranked: Seq<Event>| #![trigger top_three(ranked)] stably_ranked(ranked, events@)
            && r.top_events@ == top_three(ranked) && r.state == state_of(ranked),
        r.evidence@ == first_per_label(evidence_candidates(r.top_events@)),
{
    let mut sorted = events;
    sort_events(&mut sorted);
    let state = derive_state(sorted.as_slice());
    let ghost ranked = sorted@;
    sorted.truncate(3);
    assert(sorted@ == top_three(ranked));
    let evidence = collect_analysis_evidence(sorted.as_slice());
    RankedEvents { top_events: sorted, state, evidence }
}

/// Ranks the merged events of a group: sorts them, keeps the top three, derives the state from
/// those and collects their evidence.
pub fn rank_group_events(events: Vec<Event>) -> (r: RankedEvents)
    ensures
        exists|ranked: Seq<Event>| #![trigger top_three(ranked)] stably_ranked(ranked, events@)
            && r.top_events@ == top_three(ranked),
        r.state == state_of(r.top_events@),
        r.evidence@ == first_per_label(evidence_candidates(r.top_events@)),
{
    let mut sorted = events;
    sort_events(&mut sorted);
    let ghost ranked = sorted@;
    sorted.truncate(3);
    assert(sorted@ == top_three(ranked));
    let state = derive_state(sorted.as_slice());
    let evidence = collect_analysis_evidence(sorted.as_slice());
    RankedEvents { top_events: sorted, state, evidence }
}

/// No two events of `s` share a kind.
pub open spec fn kinds_distinct(s: Seq<Event>) -> bool {
    forall|a: int, b: int| 0 <= a < b < s.len() ==> (#[trigger] s[a]).kind != (#[trigger] s[b]).kind
}

/// Ranking keeps kinds apart: when no two events share a kind (as after deduplication, or after
/// grouping member events by kind), the top events name at most three kinds, each at most once,
/// and each is one of the events ranked.
pub proof fn lemma_top_kinds_distinct(events: Seq<Event>, ranked: Seq<Event>)
    requires
        kinds_distinct(events),
        stably_ranked(ranked, events),
    ensures
        kinds_distinct(top_three(ranked)),
        top_three(ranked).len() <= 3,
        top_three(ranked).len() == if events.len() <= 3 { events.len() } else { 3 },
        forall|k: int| 0 <= k < top_three(ranked).len() ==> events.contains(#[trigger] top_three(ranked)[k]),
{
    broadcast use vstd::multiset::group_multiset_axioms;
    assert(events.no_duplicates()) by {
        assert forall|i: int, j: int| 0 <= i < events.len() && 0 <= j < events.len() && i != j implies events[i] != events[j] by {
            if i < j {
                assert(events[i].kind != events[j].kind);
            } else {
                assert(events[j].kind != events[i].kind);
            }
        }
    }
    events.lemma_multiset_has_no_duplicates();
    assert forall|x: Event| ranked.to_multiset().contains(x) implies ranked.to_multiset().count(x) == 1 by {
        assert(events.to_multiset().contains(x));
    }
    ranked.lemma_multiset_has_no_duplicates_conv();
    assert(ranked.len() == events.len()) by {
        assert(ranked.len() == ranked.to_multiset().len());
        assert(events.len() == events.to_multiset().len());
    }
    assert forall|k: int| 0 <= k < ranked.len() implies events.contains(#[trigger] ranked[k]) by {
        assert(ranked.contains(ranked[k]));
        assert(ranked.to_multiset().count(ranked[k]) > 0);
    }
    assert forall|a: int, b: int| 0 <= a < b < ranked.len() implies (#[trigger] ranked[a]).kind != (#[trigger] ranked[b]).kind by {
        assert(events.contains(ranked[a]));
        assert(events.contains(ranked[b]));
        let i = choose|i: int| 0 <= i < events.len() && events[i] == ranked[a];
        let j = choose|j: int| 0 <= j < events.len() && events[j] == ranked[b];
        assert(ranked[a] != ranked[b]);
        assert(i != j);
        if i < j {
            assert(events[i].kind != events[j].kind);
        } else {
            assert(events[j].kind != events[i].kind);
        }
    }
    let t = top_three(ranked);
    assert forall|k: int| 0 <= k < t.len() implies events.contains(#[trigger] t[k]) by {
        assert(t[k] == ranked[k]);
    }
    assert forall|a: int, b: int| 0 <= a < b < t.len() implies (#[trigger] t[a]).kind != (#[trigger] t[b]).kind by {
        assert(t[a] == ranked[a] && t[b] == ranked[b]);
    }
}

/// Item `j` is ranked ahead of item `i` among peers: a larger magnitude, or an equal one and an
/// earlier position.
pub open spec fn ahead(keys: Seq<u64>, j: int, i: int) -> bool {
    keys[j] > keys[i] || (keys[j] == keys[i] && j < i)
}

/// Number of the first `m` items ranked ahead of item `i`.
pub open spec fn count_ahead(keys: Seq<u64>, i: int, m: int) -> nat
    decreases m,
{
    if m <= 0 {
        0
    } else {
        count_ahead(keys, i, m - 1) + if ahead(keys, m - 1, i) { 1nat } else { 0nat }
    }
}

/// One-based rank of item `i` in descending order of magnitude, earlier items first among equals.
pub open spec fn peer_rank(keys: Seq<u64>, i: int) -> nat {
    1 + count_ahead(keys, i, keys.len() as int)
}

proof fn lemma_count_ahead_bound(keys: Seq<u64>, i: int, m: int)
    requires
        0 <= i < keys.len(),
        0 <= m <= keys.len(),
    ensures
        count_ahead(keys, i, m) <= m,
        i < m ==> count_ahead(keys, i, m) < m,
    decreases m,
{
    if m > 0 {
        lemma_count_ahead_bound(keys, i, m - 1);
    }
}

/// Peer positions of items given their magnitudes as order keys (a larger key is a larger
/// magnitude): the rank in descending order, earlier items first among equals, the total, and
/// the percentile `(total - rank) * 100 / total`.
pub fn peer_contexts(keys: &[u64]) -> (r: Vec<PeerContext>)
    requires
        keys@.len() == 0 || (keys@.len() - 1) * 100 <= usize::MAX,
    ensures
        r@.len() == keys@.len(),
        forall|i: int| 0 <= i < keys@.len() ==> {
            &&& (#[trigger] r@[i]).rank == peer_rank(keys@, i)
            &&& r@[i].total == keys@.len()
            &&& r@[i].percentile == (keys@.len() - peer_rank(keys@, i)) * 100 / (keys@.len() as int)
        },
{
    let n = keys.len();
    let mut out: Vec<PeerContext> = Vec::new();
    let mut i: usize = 0;
    while i < n
        invariant
            n == keys@.len(),
            n == 0 || (n - 1) * 100 <= usize::MAX,
            i <= n,
            out@.len() == i,
            forall|q: int| 0 <= q < i ==> {
                &&& (#[trigger] out@[q]).rank == peer_rank(keys@, q)
                &&& out@[q].total == n
                &&& out@[q].percentile == (n - peer_rank(keys@, q)) * 100 / (n as int)
            },
        decreases n - i,
    {
        let mut count: usize = 0;
        let mut j: usize = 0;
        while j < n
            invariant
                n == keys@.len(),
                i < n,
                j <= n,
                count == count_ahead(keys@, i as int, j as int),
            decreases n - j,
        {
            proof { lemma_count_ahead_bound(keys@, i as int, j + 1); }
            if keys[j] > keys[i] || (keys[j] == keys[i] && j < i) {
                count += 1;
            }
            j += 1;
        }
        proof { lemma_count_ahead_bound(keys@, i as int, n as int); }
        let rank = count + 1;
        assert((n - rank) * 100 <= (n - 1) * 100) by (nonlinear_arith)
            requires
                1 <= rank <= n;
        let percentile = ((n - rank) * 100) / n;
        out.push(PeerContext { rank, total: n, percentile });
        i += 1;
    }
    out
}

proof fn lemma_ahead_monotone(keys: Seq<u64>, i: int, j: int, m: int)
    requires
        0 <= i < keys.len(),
        0 <= j < keys.len(),
        ahead(keys, i, j),
        0 <= m <= keys.len(),
    ensures
        count_ahead(keys, j, m) >= count_ahead(keys, i, m) + if i < m { 1nat } else { 0nat },
    decreases m,
{
    if m > 0 {
        lemma_ahead_monotone(keys, i, j, m - 1);
    }
}

/// Peer ranks are a numbering of the peers: each lies in `1..=n`, no two peers share one, and
/// every percentile is below one hundred.
pub proof fn lemma_peer_ranks_distinct(keys: Seq<u64>, i: int, j: int)
    requires
        0 <= i < keys.len(),
        0 <= j < keys.len(),
    ensures
        1 <= peer_rank(keys, i) <= keys.len(),
        i != j ==> peer_rank(keys, i) != peer_rank(keys, j),
        (keys.len() - peer_rank(keys, i)) * 100 / (keys.len() as int) < 100,
{
    lemma_count_ahead_bound(keys, i, keys.len() as int);
    assert(!ahead(keys, i, i));
    lemma_count_ahead_self(keys, i, keys.len() as int);
    if i != j {
        if ahead(keys, i, j) {
            lemma_ahead_monotone(keys, i, j, keys.len() as int);
        } else {
            assert(ahead(keys, j, i));
            lemma_ahead_monotone(keys, j, i, keys.len() as int);
        }
    }
    let n = keys.len() as int;
    let r = peer_rank(keys, i) as int;
    assert((n - r) * 100 < n * 100) by (nonlinear_arith)
        requires
            r >= 1,
            n >= 1,
    ;
    assert((n - r) * 100 / n < 100) by (nonlinear_arith)
        requires
            (n - r) * 100 < n * 100,
            n >= 1,
            r <= n,
    ;
}

/// Some item holds rank `r`.
pub open spec fn rank_taken(keys: Seq<u64>, r: int) -> bool {
    exists|i: int| 0 <= i < keys.len() && #[trigger] peer_rank(keys, i) == r
}

/// Peer ranks are a permutation of `1..=n` that puts larger magnitudes first and keeps the
/// input order among equal magnitudes.
pub proof fn lemma_peer_ranks_permutation(keys: Seq<u64>)
    ensures
        forall|i: int, j: int| 0 <= i < keys.len() && 0 <= j < keys.len() && keys[i] > keys[j]
            ==> peer_rank(keys, i) < peer_rank(keys, j),
        forall|i: int, j: int| 0 <= i < j < keys.len() && keys[i] == keys[j]
            ==> peer_rank(keys, i) < peer_rank(keys, j),
        forall|i: int| 0 <= i < keys.len() ==> 1 <= #[trigger] peer_rank(keys, i) <= keys.len(),
        forall|r: int| 1 <= r <= keys.len() ==> #[trigger] rank_taken(keys, r),
{
    let n = keys.len() as int;
    assert forall|i: int, j: int| 0 <= i < n && 0 <= j < n && (keys[i] > keys[j] || (i < j && keys[i] == keys[j]))
        implies peer_rank(keys, i) < peer_rank(keys, j) by {
        assert(ahead(keys, i, j));
        lemma_ahead_monotone(keys, i, j, n);
        lemma_count_ahead_self(keys, i, n);
    }
    assert forall|i: int| 0 <= i < n implies 1 <= #[trigger] peer_rank(keys, i) <= n by {
        lemma_peer_ranks_distinct(keys, i, i);
    }
    let dom = vstd::set_lib::set_int_range(0, n);
    let f = |i: int| peer_rank(keys, i) as int;
    let img = dom.map(f);
    let ranks = vstd::set_lib::set_int_range(1, n + 1);
    vstd::set_lib::lemma_int_range(0, n);
    vstd::set_lib::lemma_int_range(1, n + 1);
    assert(vstd::relations::injective_on(f, dom)) by {
        assert forall|a: int, b: int| dom.contains(a) && dom.contains(b) && #[trigger] f(a) == #[trigger] f(b) implies a == b by {
            lemma_peer_ranks_distinct(keys, a, b);
        }
    }
    vstd::set_lib::lemma_map_size(dom, img, f);
    assert(img.subset_of(ranks)) by {
        assert forall|r: int| img.contains(r) implies ranks.contains(r) by {
            let i = choose|i: int| dom.contains(i) && f(i) == r;
            lemma_peer_ranks_distinct(keys, i, i);
        }
    }
    vstd::set_lib::lemma_subset_equality(img, ranks);
    assert forall|r: int| 1 <= r <= n implies #[trigger] rank_taken(keys, r) by {
        assert(ranks.contains(r));
        assert(img.contains(r));
        let i = choose|i: int| dom.contains(i) && f(i) == r;
        assert(peer_rank(keys, i) == r);
    }
}

proof fn lemma_count_ahead_self(keys: Seq<u64>, i: int, m: int)
    requires
        0 <= i < keys.len(),
        0 <= m <= keys.len(),
    ensures
        count_ahead(keys, i, m) <= if m > i { m - 1 } else { m },
    decreases m,
{
    if m > 0 {
        lemma_count_ahead_self(keys, i, m - 1);
    }
}

proof fn lemma_filter_cons(a: Seq<Event>, p: spec_fn(Event) -> bool)
    requires
        a.len() > 0,
    ensures
        a.filter(p) == seq![a[0]].filter(p) + a.drop_first().filter(p),
        seq![a[0]].filter(p) == if p(a[0]) { seq![a[0]] } else { Seq::<Event>::empty() },
{
    assert(a =~= seq![a[0]] + a.drop_first());
    Seq::<Event>::empty().lemma_filter_push(a[0], p);
    assert(seq![a[0]] =~= Seq::<Event>::empty().push(a[0]));
    reveal(Seq::filter);
    assert(Seq::<Event>::empty().filter(p) =~= Seq::<Event>::empty());
}

proof fn lemma_heads_tie(a: Seq<Event>, b: Seq<Event>)
    requires
        a.len() > 0,
        sorted_by(a, rank_order()),
        sorted_by(b, rank_order()),
        a.to_multiset() == b.to_multiset(),
    ensures
        b.len() == a.len(),
        rank_tie(b[0], a[0]),
{
    assert(a.to_multiset().len() == a.len());
    assert(b.to_multiset().len() == b.len());
    let a0 = a[0];
    let b0 = b[0];
    assert(a.contains(a0));
    assert(a.to_multiset().count(a0) > 0);
    assert(b.contains(a0));
    assert(b.contains(b0));
    assert(b.to_multiset().count(b0) > 0);
    assert(a.contains(b0));
    let qa = choose|q: int| 0 <= q < b.len() && b[q] == a0;
    let qb = choose|q: int| 0 <= q < a.len() && a[q] == b0;
    if qa > 0 {
        assert((rank_order())(b[0], b[qa]));
    }
    if qb > 0 {
        assert((rank_order())(a[0], a[qb]));
    }
}

proof fn lemma_tails_agree(a: Seq<Event>, b: Seq<Event>)
    requires
        a.len() > 0,
        b.len() == a.len(),
        a[0] == b[0],
        sorted_by(a, rank_order()),
        sorted_by(b, rank_order()),
        a.to_multiset() == b.to_multiset(),
        forall|x: Event| #[trigger] a.filter(ties_with(x)) == b.filter(ties_with(x)),
    ensures
        sorted_by(a.drop_first(), rank_order()),
        sorted_by(b.drop_first(), rank_order()),
        a.drop_first().to_multiset() == b.drop_first().to_multiset(),
        forall|x: Event| #[trigger] a.drop_first().filter(ties_with(x)) == b.drop_first().filter(ties_with(x)),
{
    let a1 = a.drop_first();
    let b1 = b.drop_first();
    assert(a.remove(0) =~= a1);
    assert(b.remove(0) =~= b1);
    assert(a1.to_multiset() == a.to_multiset().remove(a[0]));
    assert(b1.to_multiset() == b.to_multiset().remove(b[0]));
    assert forall|x: Event| #[trigger] a1.filter(ties_with(x)) == b1.filter(ties_with(x)) by {
        let px = ties_with(x);
        lemma_filter_cons(a, px);
        lemma_filter_cons(b, px);
        let h = seq![a[0]].filter(px);
        assert(a.filter(px) == b.filter(px));
        assert(a1.filter(px) =~= a.filter(px).skip(h.len() as int));
        assert(b1.filter(px) =~= b.filter(px).skip(h.len() as int));
    }
    assert forall|i: int, j: int| 0 <= i < j < a1.len() implies #[trigger] (rank_order())(a1[i], a1[j]) by {
        assert((rank_order())(a[i + 1], a[j + 1]));
    }
    assert forall|i: int, j: int| 0 <= i < j < b1.len() implies #[trigger] (rank_order())(b1[i], b1[j]) by {
        assert((rank_order())(b[i + 1], b[j + 1]));
    }
}

proof fn lemma_ranking_unique(a: Seq<Event>, b: Seq<Event>)
    requires
        sorted_by(a, rank_order()),
        sorted_by(b, rank_order()),
        a.to_multiset() == b.to_multiset(),
        forall|x: Event| #[trigger] a.filter(ties_with(x)) == b.filter(ties_with(x)),
    ensures
        a == b,
    decreases a.len(),
{
    if a.len() == 0 {
        assert(a.to_multiset().len() == a.len());
        assert(b.to_multiset().len() == b.len());
        assert(b =~= a);
    } else {
        lemma_heads_tie(a, b);
        let a0 = a[0];
        let b0 = b[0];
        let p = ties_with(a0);
        lemma_filter_cons(a, p);
        lemma_filter_cons(b, p);
        assert(a.filter(p) == b.filter(p));
        assert(a.filter(p)[0] == a0);
        assert(b.filter(p)[0] == b0);
        lemma_tails_agree(a, b);
        lemma_ranking_unique(a.drop_first(), b.drop_first());
        assert(a =~= seq![a0] + a.drop_first());
        assert(b =~= seq![b0] + b.drop_first());
    }
}

/// The ranking is deterministic: two stable rankings of the same events are identical, so ties
/// on score are broken by kind priority, then by start, then by input order, and nothing else.
pub proof fn lemma_stable_ranking_unique(a: Seq<Event>, b: Seq<Event>, events: Seq<Event>)
    requires
        stably_ranked(a, events),
        stably_ranked(b, events),
    ensures
        a == b,
{
    assert forall|x: Event| #[trigger] a.filter(ties_with(x)) == b.filter(ties_with(x)) by {
        assert(a.filter(ties_with(x)) == events.filter(ties_with(x)));
        assert(b.filter(ties_with(x)) == events.filter(ties_with(x)));
    }
    lemma_ranking_unique(a, b);
}

} // verus!
