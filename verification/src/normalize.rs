use vstd::prelude::*;

use crate::sorting::{ascending, lemma_increasing_unique, lemma_injection_onto, sort_i64, strictly_increasing};

verus! {

/// What normalisation reads of a raw sample: its timestamp and whether its value is finite.
#[derive(Clone, Copy, Debug, PartialEq, Eq, Structural)]
pub struct PointStamp {
    pub ts_secs: i64,
    pub finite: bool,
}

/// The shape of a normalised series: which raw samples it keeps, in time order, their
/// offsets from the first kept sample, and the derived window facts.
#[derive(Clone, Debug, PartialEq)]
pub struct NormalizedLayout {
    pub source_indices: Vec<usize>,
    pub offsets_secs: Vec<i64>,
    pub window_start_ts_secs: Option<i64>,
    pub interval_secs: i64,
    pub window_secs: i64,
}

/// Timestamps between 2000-01-01 and 2100-01-01 are read as absolute Unix times.
pub open spec fn unix_like(ts: int) -> bool {
    946_684_800 <= ts <= 4_102_444_800
}

/// Whether a timestamp looks like an absolute Unix time rather than a relative offset.
pub fn looks_like_unix_timestamp(ts_secs: i64) -> (b: bool)
    ensures
        b == unix_like(ts_secs as int),
{
    946_684_800 <= ts_secs && ts_secs <= 4_102_444_800
}

/// Sample `i` is kept: its value is finite and no later finite sample has the same timestamp.
pub open spec fn kept(points: Seq<PointStamp>, i: int) -> bool {
    &&& 0 <= i < points.len()
    &&& points[i].finite
    &&& forall|j: int| i < j < points.len() && #[trigger] points[j].finite ==> points[j].ts_secs != points[i].ts_secs
}

/// At least three samples are kept, that is, at least three distinct timestamps carry a finite value.
pub open spec fn three_kept(points: Seq<PointStamp>) -> bool {
    exists|a: int, b: int, c: int| a < b < c && kept(points, a) && kept(points, b) && kept(points, c)
}

/// The spread between finite timestamps fits the signed range, so offsets can be taken.
pub open spec fn spread_fits(points: Seq<PointStamp>) -> bool {
    forall|a: int, b: int|
        0 <= a < points.len() && 0 <= b < points.len() && points[a].finite && points[b].finite
            ==> #[trigger] points[b].ts_secs - #[trigger] points[a].ts_secs <= i64::MAX
}

/// Gaps between consecutive offsets.
pub open spec fn gaps(offsets: Seq<i64>) -> Seq<i64> {
    Seq::new((offsets.len() - 1) as nat, |k: int| (offsets[k + 1] - offsets[k]) as i64)
}

/// Median of a non-empty sequence of gaps: the middle of their ascending arrangement, or the
/// floor of the mean of the two middle values for an even count.
pub open spec fn median_gap(g: Seq<i64>) -> int {
    let s = ascending(g);
    if s.len() % 2 == 0 {
        (s[(s.len() / 2) as int] + s[s.len() / 2 - 1]) / 2
    } else {
        s[(s.len() / 2) as int] as int
    }
}

/// The layout is the normalisation of `points`.
pub open spec fn layout_of(points: Seq<PointStamp>, l: NormalizedLayout) -> bool {
    let idx = l.source_indices@;
    let off = l.offsets_secs@;
    let n = idx.len();
    &&& n >= 3
    &&& off.len() == n
    &&& forall|k: int| 0 <= k < n ==> kept(points, #[trigger] idx[k] as int)
    &&& forall|i: int| kept(points, i) ==> #[trigger] idx.contains(i as usize)
    &&& forall|a: int, b: int| 0 <= a < b < n ==> points[#[trigger] idx[a] as int].ts_secs < points[#[trigger] idx[b] as int].ts_secs
    &&& forall|k: int| 0 <= k < n ==> #[trigger] off[k] == points[idx[k] as int].ts_secs - points[idx[0] as int].ts_secs
    &&& l.window_start_ts_secs == if unix_like(points[idx[0] as int].ts_secs as int) {
        Some(points[idx[0] as int].ts_secs)
    } else {
        None
    }
    &&& l.window_secs == off[n - 1]
    &&& l.interval_secs == median_gap(gaps(off))
}

/// The kept indices chosen so far, after scanning the first `i` samples, are in timestamp
/// order, each is the last finite sample of its timestamp within the prefix, and every finite
/// timestamp of the prefix is represented.
spec fn scan_inv(pts: Seq<PointStamp>, idx: Seq<usize>, i: int) -> bool {
    &&& 0 <= i <= pts.len()
    &&& forall|k: int| 0 <= k < idx.len() ==> (#[trigger] idx[k] as int) < i && pts[idx[k] as int].finite
    &&& forall|a: int, b: int| 0 <= a < b < idx.len() ==> pts[#[trigger] idx[a] as int].ts_secs < pts[#[trigger] idx[b] as int].ts_secs
    &&& forall|k: int, j: int| 0 <= k < idx.len() && 0 <= j < i && #[trigger] pts[j].finite && pts[j].ts_secs == pts[#[trigger] idx[k] as int].ts_secs ==> j <= idx[k]
    &&& forall|j: int| 0 <= j < i && #[trigger] pts[j].finite ==> exists|k: int| 0 <= k < idx.len() && pts[#[trigger] idx[k] as int].ts_secs == pts[j].ts_secs
}

/// Position of the first kept index whose timestamp is not below `t`.
fn lower_position(points: &[PointStamp], idx: &Vec<usize>, t: i64) -> (p: usize)
    requires
        forall|k: int| 0 <= k < idx@.len() ==> (#[trigger] idx@[k] as int) < points@.len(),
    ensures
        p <= idx@.len(),
        forall|k: int| 0 <= k < p ==> points@[#[trigger] idx@[k] as int].ts_secs < t,
        p < idx@.len() ==> points@[idx@[p as int] as int].ts_secs >= t,
{
    let mut p: usize = 0;
    while p < idx.len() && points[idx[p]].ts_secs < t
        invariant
            p <= idx@.len(),
            forall|k: int| 0 <= k < idx@.len() ==> (#[trigger] idx@[k] as int) < points@.len(),
            forall|k: int| 0 <= k < p ==> points@[#[trigger] idx@[k] as int].ts_secs < t,
        decreases idx@.len() - p,
    {
        p += 1;
    }
    p
}

/// Sample `i` repeats the timestamp of kept position `p`: it replaces that entry.
#[verifier::rlimit(40)]
fn scan_replace(points: &[PointStamp], idx: &mut Vec<usize>, i: usize, p: usize)
    requires
        i < points@.len(),
        points@[i as int].finite,
        scan_inv(points@, old(idx)@, i as int),
        p < old(idx)@.len(),
        points@[old(idx)@[p as int] as int].ts_secs == points@[i as int].ts_secs,
    ensures
        scan_inv(points@, final(idx)@, i + 1),
{
    let ghost pts = points@;
    let ghost before = idx@;
    let t = points[i].ts_secs;
    idx.set(p, i);
    assert forall|k: int, j: int| 0 <= k < idx@.len() && 0 <= j < i + 1 && #[trigger] pts[j].finite && pts[j].ts_secs == pts[#[trigger] idx@[k] as int].ts_secs implies j <= idx@[k] by {
        if k != p as int {
            assert(idx@[k] == before[k]);
            if j == i {
                if k < p {
                    assert(pts[before[k] as int].ts_secs < pts[before[p as int] as int].ts_secs);
                } else {
                    assert(pts[before[p as int] as int].ts_secs < pts[before[k] as int].ts_secs);
                }
            }
        }
    }
    assert forall|j: int| 0 <= j < i + 1 && #[trigger] pts[j].finite implies exists|k: int| 0 <= k < idx@.len() && pts[#[trigger] idx@[k] as int].ts_secs == pts[j].ts_secs by {
        if j < i {
            let k = choose|k: int| 0 <= k < before.len() && pts[#[trigger] before[k] as int].ts_secs == pts[j].ts_secs;
            assert(pts[idx@[k] as int].ts_secs == pts[j].ts_secs);
        } else {
            assert(pts[idx@[p as int] as int].ts_secs == pts[j].ts_secs);
        }
    }
    assert forall|a: int, b: int| 0 <= a < b < idx@.len() implies pts[#[trigger] idx@[a] as int].ts_secs < pts[#[trigger] idx@[b] as int].ts_secs by {
        assert(pts[before[a] as int].ts_secs < pts[before[b] as int].ts_secs);
    }
}

/// Facts about a position `p` at which timestamp of sample `i` is inserted.
spec fn insert_point(pts: Seq<PointStamp>, before: Seq<usize>, i: usize, p: int) -> bool {
    &&& 0 <= i < pts.len()
    &&& pts[i as int].finite
    &&& scan_inv(pts, before, i as int)
    &&& 0 <= p <= before.len()
    &&& forall|k: int| 0 <= k < p ==> pts[#[trigger] before[k] as int].ts_secs < pts[i as int].ts_secs
    &&& p < before.len() ==> pts[before[p] as int].ts_secs > pts[i as int].ts_secs
}

proof fn lemma_insert_ordered(pts: Seq<PointStamp>, before: Seq<usize>, after: Seq<usize>, i: usize, p: int)
    requires
        insert_point(pts, before, i, p),
        after == before.insert(p, i),
    ensures
        forall|a: int, b: int| 0 <= a < b < after.len() ==> pts[#[trigger] after[a] as int].ts_secs < pts[#[trigger] after[b] as int].ts_secs,
{
    let t = pts[i as int].ts_secs;
    assert forall|a: int, b: int| 0 <= a < b < after.len() implies pts[#[trigger] after[a] as int].ts_secs < pts[#[trigger] after[b] as int].ts_secs by {
        if a == p && b > p {
            assert(pts[before[p] as int].ts_secs > t);
            assert(b - 1 == p || pts[before[p] as int].ts_secs < pts[before[b - 1] as int].ts_secs);
        } else if a < p && b > p {
            assert(pts[before[a] as int].ts_secs < t);
            assert(b - 1 == p || pts[before[p] as int].ts_secs < pts[before[b - 1] as int].ts_secs);
        } else if a > p {
            assert(after[a] == before[a - 1] && after[b] == before[b - 1]);
            assert(pts[before[a - 1] as int].ts_secs < pts[before[b - 1] as int].ts_secs);
        } else if b < p {
            assert(after[a] == before[a] && after[b] == before[b]);
            assert(pts[before[a] as int].ts_secs < pts[before[b] as int].ts_secs);
        } else if b == p {
            assert(pts[before[a] as int].ts_secs < t);
        }
    }
}

proof fn lemma_insert_last(pts: Seq<PointStamp>, before: Seq<usize>, after: Seq<usize>, i: usize, p: int)
    requires
        insert_point(pts, before, i, p),
        after == before.insert(p, i),
    ensures
        forall|k: int, j: int| 0 <= k < after.len() && 0 <= j < i + 1 && #[trigger] pts[j].finite && pts[j].ts_secs == pts[#[trigger] after[k] as int].ts_secs ==> j <= after[k],
{
    let t = pts[i as int].ts_secs;
    assert forall|k: int, j: int| 0 <= k < after.len() && 0 <= j < i + 1 && #[trigger] pts[j].finite && pts[j].ts_secs == pts[#[trigger] after[k] as int].ts_secs implies j <= after[k] by {
        if k < p {
            assert(after[k] == before[k]);
            if j == i {
                assert(pts[before[k] as int].ts_secs < t);
            }
        } else if k > p {
            assert(after[k] == before[k - 1]);
            if j == i {
                assert(k - 1 == p || pts[before[p] as int].ts_secs < pts[before[k - 1] as int].ts_secs);
                assert(pts[before[p] as int].ts_secs > t);
            }
        }
    }
}

proof fn lemma_insert_covers(pts: Seq<PointStamp>, before: Seq<usize>, after: Seq<usize>, i: usize, p: int)
    requires
        insert_point(pts, before, i, p),
        after == before.insert(p, i),
    ensures
        forall|j: int| 0 <= j < i + 1 && #[trigger] pts[j].finite ==> exists|k: int| 0 <= k < after.len() && pts[#[trigger] after[k] as int].ts_secs == pts[j].ts_secs,
{
    assert forall|j: int| 0 <= j < i + 1 && #[trigger] pts[j].finite implies exists|k: int| 0 <= k < after.len() && pts[#[trigger] after[k] as int].ts_secs == pts[j].ts_secs by {
        if j < i {
            let k = choose|k: int| 0 <= k < before.len() && pts[#[trigger] before[k] as int].ts_secs == pts[j].ts_secs;
            if k < p {
                assert(pts[after[k] as int].ts_secs == pts[j].ts_secs);
            } else {
                assert(after[k + 1] == before[k]);
                assert(pts[after[k + 1] as int].ts_secs == pts[j].ts_secs);
            }
        } else {
            assert(pts[after[p] as int].ts_secs == pts[j].ts_secs);
        }
    }
}

/// Sample `i` carries a new timestamp: it is inserted at position `p`.
fn scan_insert(points: &[PointStamp], idx: &mut Vec<usize>, i: usize, p: usize)
    requires
        i < points@.len(),
        points@[i as int].finite,
        scan_inv(points@, old(idx)@, i as int),
        p <= old(idx)@.len(),
        forall|k: int| 0 <= k < p ==> points@[#[trigger] old(idx)@[k] as int].ts_secs < points@[i as int].ts_secs,
        p < old(idx)@.len() ==> points@[old(idx)@[p as int] as int].ts_secs > points@[i as int].ts_secs,
    ensures
        scan_inv(points@, final(idx)@, i + 1),
{
    let ghost before = idx@;
    proof {
        assert(insert_point(points@, before, i, p as int));
    }
    idx.insert(p, i);
    proof {
        lemma_insert_ordered(points@, before, idx@, i, p as int);
        lemma_insert_last(points@, before, idx@, i, p as int);
        lemma_insert_covers(points@, before, idx@, i, p as int);
        assert forall|k: int| 0 <= k < idx@.len() implies (#[trigger] idx@[k] as int) < i + 1 && points@[idx@[k] as int].finite by {
            if k < p {
                assert(idx@[k] == before[k]);
            } else if k > p {
                assert(idx@[k] == before[k - 1]);
            }
        }
    }
}

/// Scans sample `i` into the kept indices.
fn scan_one(points: &[PointStamp], idx: &mut Vec<usize>, i: usize)
    requires
        i < points@.len(),
        scan_inv(points@, old(idx)@, i as int),
    ensures
        scan_inv(points@, final(idx)@, i + 1),
{
    if !points[i].finite {
        return;
    }
    let t = points[i].ts_secs;
    let p = lower_position(points, idx, t);
    if p < idx.len() && points[idx[p]].ts_secs == t {
        scan_replace(points, idx, i, p);
    } else {
        scan_insert(points, idx, i, p);
    }
}

/// The kept samples in timestamp order.
fn kept_in_order(points: &[PointStamp]) -> (idx: Vec<usize>)
    ensures
        forall|k: int| 0 <= k < idx@.len() ==> kept(points@, #[trigger] idx@[k] as int),
        forall|i: int| kept(points@, i) ==> #[trigger] idx@.contains(i as usize),
        forall|a: int, b: int| 0 <= a < b < idx@.len() ==> points@[#[trigger] idx@[a] as int].ts_secs < points@[#[trigger] idx@[b] as int].ts_secs,
{
    let ghost pts = points@;
    let mut idx: Vec<usize> = Vec::new();
    let mut i: usize = 0;
    while i < points.len()
        invariant
            pts == points@,
            scan_inv(pts, idx@, i as int),
        decreases points.len() - i,
    {
        scan_one(points, &mut idx, i);
        i += 1;
    }
    proof {
        assert forall|k: int| 0 <= k < idx@.len() implies kept(pts, #[trigger] idx@[k] as int) by {
            assert forall|j: int| idx@[k] < j < pts.len() && #[trigger] pts[j].finite implies pts[j].ts_secs != pts[idx@[k] as int].ts_secs by {
                if pts[j].ts_secs == pts[idx@[k] as int].ts_secs {
                    assert(j <= idx@[k]);
                }
            }
        }
        assert forall|j: int| kept(pts, j) implies #[trigger] idx@.contains(j as usize) by {
            assert(pts[j].finite);
            let k = choose|k: int| 0 <= k < idx@.len() && pts[#[trigger] idx@[k] as int].ts_secs == pts[j].ts_secs;
            assert(j <= idx@[k]);
            if j < idx@[k] {
                assert(pts[idx@[k] as int].finite);
            }
            assert(idx@[k] == j as usize);
        }
    }
    idx
}

/// Offsets of the kept timestamps from the first one.
fn offsets_from_first(points: &[PointStamp], idx: &Vec<usize>) -> (offsets: Vec<i64>)
    requires
        idx@.len() >= 1,
        spread_fits(points@),
        forall|q: int| 0 <= q < idx@.len() ==> kept(points@, #[trigger] idx@[q] as int),
        forall|a: int, b: int| 0 <= a < b < idx@.len() ==> points@[#[trigger] idx@[a] as int].ts_secs < points@[#[trigger] idx@[b] as int].ts_secs,
    ensures
        offsets@.len() == idx@.len(),
        forall|q: int| 0 <= q < idx@.len() ==> #[trigger] offsets@[q] == points@[idx@[q] as int].ts_secs - points@[idx@[0] as int].ts_secs,
{
    let ghost pts = points@;
    let n = idx.len();
    let base = points[idx[0]].ts_secs;
    let mut offsets: Vec<i64> = Vec::new();
    let mut k: usize = 0;
    while k < n
        invariant
            pts == points@,
            n == idx@.len(),
            n >= 1,
            k <= n,
            spread_fits(pts),
            base == pts[idx@[0] as int].ts_secs,
            forall|q: int| 0 <= q < n ==> kept(pts, #[trigger] idx@[q] as int),
            forall|a: int, b: int| 0 <= a < b < n ==> pts[#[trigger] idx@[a] as int].ts_secs < pts[#[trigger] idx@[b] as int].ts_secs,
            offsets@.len() == k,
            forall|q: int| 0 <= q < k ==> #[trigger] offsets@[q] == pts[idx@[q] as int].ts_secs - base,
        decreases n - k,
    {
        let t = points[idx[k]].ts_secs;
        proof {
            assert(kept(pts, idx@[k as int] as int));
            assert(kept(pts, idx@[0] as int));
            assert(pts[idx@[k as int] as int].ts_secs - pts[idx@[0] as int].ts_secs <= i64::MAX);
            if k > 0 {
                assert(pts[idx@[0] as int].ts_secs < pts[idx@[k as int] as int].ts_secs);
            }
        }
        offsets.push(t - base);
        k += 1;
    }
    offsets
}

/// Median gap between consecutive strictly increasing offsets.
fn median_of_gaps(offsets: &Vec<i64>) -> (m: i64)
    requires
        offsets@.len() >= 2,
        forall|a: int, b: int| 0 <= a < b < offsets@.len() ==> offsets@[a] < offsets@[b],
        forall|a: int| 0 <= a < offsets@.len() ==> offsets@[a] >= 0,
    ensures
        m == median_gap(gaps(offsets@)),
{
    let n = offsets.len();
    let mut deltas: Vec<i64> = Vec::new();
    let mut q: usize = 0;
    while q + 1 < n
        invariant
            n == offsets@.len(),
            n >= 2,
            q + 1 <= n,
            forall|a: int, b: int| 0 <= a < b < n ==> offsets@[a] < offsets@[b],
            forall|a: int| 0 <= a < n ==> offsets@[a] >= 0,
            deltas@ == gaps(offsets@).take(q as int),
        decreases n - q,
    {
        let d = offsets[q + 1] - offsets[q];
        deltas.push(d);
        assert(gaps(offsets@).take(q + 1) =~= gaps(offsets@).take(q as int).push(d));
        q += 1;
    }
    assert(gaps(offsets@).take((n - 1) as int) =~= gaps(offsets@));
    let sorted = sort_i64(deltas.as_slice());
    let m = sorted.len();
    proof {
        broadcast use vstd::seq_lib::group_to_multiset_ensures;
        crate::sorting::lemma_i64_le_total();
        deltas@.lemma_sort_by_ensures(crate::sorting::i64_le());
        assert(sorted@.to_multiset().len() == deltas@.to_multiset().len());
        assert forall|a: int| 0 <= a < m implies #[trigger] sorted@[a] > 0 by {
            assert(sorted@.contains(sorted@[a]));
            assert(deltas@.to_multiset().count(sorted@[a]) > 0);
            assert(deltas@.contains(sorted@[a]));
            let b = choose|b: int| 0 <= b < deltas@.len() && deltas@[b] == sorted@[a];
            assert(offsets@[b] < offsets@[b + 1]);
        }
    }
    if m % 2 == 0 {
        let upper = sorted[m / 2];
        let lower = sorted[m / 2 - 1];
        proof {
            assert((crate::sorting::i64_le())(sorted@[m / 2 - 1], sorted@[(m / 2) as int]));
        }
        lower + (upper - lower) / 2
    } else {
        sorted[m / 2]
    }
}

/// With the kept samples listed in timestamp order, at least three are listed exactly when
/// three are kept.
proof fn lemma_kept_count(pts: Seq<PointStamp>, idx: Seq<usize>)
    requires
        pts.len() <= usize::MAX,
        forall|k: int| 0 <= k < idx.len() ==> kept(pts, #[trigger] idx[k] as int),
        forall|i: int| kept(pts, i) ==> #[trigger] idx.contains(i as usize),
        forall|a: int, b: int| 0 <= a < b < idx.len() ==> pts[#[trigger] idx[a] as int].ts_secs < pts[#[trigger] idx[b] as int].ts_secs,
    ensures
        (idx.len() >= 3) == three_kept(pts),
{
    if idx.len() < 3 {
        if three_kept(pts) {
            let (a, b, c) = choose|a: int, b: int, c: int| a < b < c && kept(pts, a) && kept(pts, b) && kept(pts, c);
            assert(idx.contains(a as usize));
            assert(idx.contains(b as usize));
            assert(idx.contains(c as usize));
            let ka = choose|k: int| 0 <= k < idx.len() && idx[k] == a as usize;
            let kb = choose|k: int| 0 <= k < idx.len() && idx[k] == b as usize;
            let kc = choose|k: int| 0 <= k < idx.len() && idx[k] == c as usize;
            assert(a as usize as int == a && b as usize as int == b && c as usize as int == c);
            assert(ka != kb && kb != kc && ka != kc);
            assert(false);
        }
    } else {
        assert(kept(pts, idx[0] as int) && kept(pts, idx[1] as int) && kept(pts, idx[2] as int));
        assert(pts[idx[0] as int].ts_secs < pts[idx[1] as int].ts_secs);
        assert(pts[idx[1] as int].ts_secs < pts[idx[2] as int].ts_secs);
        let x = idx[0] as int;
        let y = idx[1] as int;
        let z = idx[2] as int;
        assert(x != y && y != z && x != z);
        if x < y && y < z {
            assert(three_kept(pts));
        } else if x < z && z < y {
            assert(three_kept(pts));
        } else if y < x && x < z {
            assert(three_kept(pts));
        } else if y < z && z < x {
            assert(three_kept(pts));
        } else if z < x && x < y {
            assert(three_kept(pts));
        } else {
            assert(three_kept(pts));
        }
    }
}

/// Whether the spread between the finite timestamps fits the signed range.
fn finite_spread_fits(points: &[PointStamp]) -> (b: bool)
    ensures
        b == spread_fits(points@),
{
    let ghost pts = points@;
    let mut seen = false;
    let mut lo: i64 = 0;
    let mut hi: i64 = 0;
    let ghost mut ilo: int = 0;
    let ghost mut ihi: int = 0;
    let mut i: usize = 0;
    while i < points.len()
        invariant
            pts == points@,
            i <= pts.len(),
            seen ==> 0 <= ilo < i && 0 <= ihi < i && pts[ilo].finite && pts[ihi].finite,
            seen ==> pts[ilo].ts_secs == lo && pts[ihi].ts_secs == hi,
            forall|j: int| 0 <= j < i && #[trigger] pts[j].finite ==> seen && lo <= pts[j].ts_secs <= hi,
        decreases pts.len() - i,
    {
        if points[i].finite {
            let t = points[i].ts_secs;
            if !seen {
                seen = true;
                lo = t;
                hi = t;
                proof { ilo = i as int; ihi = i as int; }
            } else {
                if t < lo {
                    lo = t;
                    proof { ilo = i as int; }
                }
                if t > hi {
                    hi = t;
                    proof { ihi = i as int; }
                }
            }
        }
        i += 1;
    }
    if !seen {
        return true;
    }
    let fits = (hi as i128) - (lo as i128) <= (i64::MAX as i128);
    proof {
        if !fits {
            assert(pts[ihi].ts_secs - pts[ilo].ts_secs > i64::MAX);
        }
    }
    fits
}

/// Tells whether `normalize_layout` can take these samples: when three are kept, the spread
/// of their timestamps must fit the signed range.
pub fn layout_input_fits(points: &[PointStamp]) -> (b: bool)
    ensures
        b == (three_kept(points@) ==> spread_fits(points@)),
{
    let idx = kept_in_order(points);
    assert(points@.len() == points.len());
    proof { lemma_kept_count(points@, idx@); }
    if idx.len() < 3 {
        true
    } else {
        finite_spread_fits(points)
    }
}

/// Normalises a series: drops samples whose value is not finite, orders the rest by timestamp,
/// keeps the last sample of each timestamp, and refuses series with fewer than three left. The
/// kept timestamps become offsets from the first one, which is reported as the window start when
/// it looks like a Unix time; the interval is the median gap and the window the last offset.
pub fn normalize_layout(points: &[PointStamp]) -> (r: Option<NormalizedLayout>)
    requires
        three_kept(points@) ==> spread_fits(points@),
    ensures
        r is None <==> !three_kept(points@),
        r matches Some(l) ==> layout_of(points@, l),
{
    let ghost pts = points@;
    let plen = points.len();
    assert(plen == pts.len());
    let idx = kept_in_order(points);
    let n = idx.len();
    proof { lemma_kept_count(pts, idx@); }
    if n < 3 {
        return None;
    }
    let offsets = offsets_from_first(points, &idx);
    let interval = median_of_gaps(&offsets);
    let base = points[idx[0]].ts_secs;
    let window = offsets[n - 1];
    let start = if looks_like_unix_timestamp(base) { Some(base) } else { None };
    let l = NormalizedLayout {
        source_indices: idx,
        offsets_secs: offsets,
        window_start_ts_secs: start,
        interval_secs: interval,
        window_secs: window,
    };
    Some(l)
}

/// A normalised series starts at offset zero, its offsets strictly increase, its window is
/// positive, and its interval is positive and no longer than the window.
pub proof fn lemma_layout_shape(points: Seq<PointStamp>, l: NormalizedLayout)
    requires
        layout_of(points, l),
    ensures
        l.offsets_secs@[0] == 0,
        forall|a: int, b: int| 0 <= a < b < l.offsets_secs@.len() ==> l.offsets_secs@[a] < l.offsets_secs@[b],
        l.window_secs > 0,
        0 < l.interval_secs <= l.window_secs,
{
    broadcast use vstd::seq_lib::group_to_multiset_ensures;
    let idx = l.source_indices@;
    let off = l.offsets_secs@;
    let n = off.len();
    assert(off[0] == 0);
    assert forall|a: int, b: int| 0 <= a < b < n implies off[a] < off[b] by {
        assert(points[idx[a] as int].ts_secs < points[idx[b] as int].ts_secs);
    }
    let g = gaps(off);
    let s = ascending(g);
    crate::sorting::lemma_i64_le_total();
    g.lemma_sort_by_ensures(crate::sorting::i64_le());
    assert(s.to_multiset().len() == g.to_multiset().len());
    assert forall|a: int| 0 <= a < s.len() implies 0 < #[trigger] s[a] <= l.window_secs by {
        assert(s.contains(s[a]));
        assert(g.to_multiset().count(s[a]) > 0);
        assert(g.contains(s[a]));
        let b = choose|b: int| 0 <= b < g.len() && g[b] == s[a];
        assert(off[b] < off[b + 1]);
        if b > 0 {
            assert(off[0] < off[b]);
        }
        if b + 1 < n - 1 {
            assert(off[b + 1] < off[n - 1]);
        }
    }
    let m = s.len();
    assert(m == n - 1);
    if m % 2 == 0 {
        assert(0 < s[(m / 2) as int] <= l.window_secs);
        assert(0 < s[m / 2 - 1] <= l.window_secs);
    } else {
        assert(0 < s[(m / 2) as int] <= l.window_secs);
    }
}

/// The samples a normalised series consists of: its offsets, each with a finite value.
pub open spec fn offset_stamps(offsets: Seq<i64>) -> Seq<PointStamp> {
    offsets.map_values(|t: i64| PointStamp { ts_secs: t, finite: true })
}

/// A strictly increasing list of indices below `n` that contains each of them is `0..n`.
proof fn lemma_covering_indices(idx: Seq<usize>, n: int, k: int)
    requires
        forall|a: int, b: int| 0 <= a < b < idx.len() ==> idx[a] < idx[b],
        forall|a: int| 0 <= a < idx.len() ==> idx[a] < n,
        forall|v: int| 0 <= v < n ==> #[trigger] idx.contains(v as usize),
        0 <= k < idx.len(),
        n <= usize::MAX,
    ensures
        forall|j: int| 0 <= j <= k ==> idx[j] == j,
    decreases k,
{
    if k > 0 {
        lemma_covering_indices(idx, n, k - 1);
    }
    if idx[k] != k {
        if k > 0 {
            assert(idx[k] > idx[k - 1]);
        }
        assert(idx[k] > k);
        assert(idx.contains(k as usize));
        let j = choose|j: int| 0 <= j < idx.len() && idx[j] == k as usize;
        if j < k {
            assert(idx[j] == j);
        } else if j > k {
            assert(idx[j] > idx[k]);
        }
        assert(false);
    }
}

/// Normalising a normalised series changes nothing of its shape: its samples are taken as
/// they are, and give back the same offsets, interval and window, with no absolute start.
pub proof fn lemma_normalize_idempotent(points: Seq<PointStamp>, l: NormalizedLayout, l2: NormalizedLayout)
    requires
        layout_of(points, l),
        layout_of(offset_stamps(l.offsets_secs@), l2),
    ensures
        three_kept(offset_stamps(l.offsets_secs@)),
        spread_fits(offset_stamps(l.offsets_secs@)),
        l2.offsets_secs@ == l.offsets_secs@,
        l2.interval_secs == l.interval_secs,
        l2.window_secs == l.window_secs,
        l2.window_start_ts_secs is None,
{
    lemma_layout_shape(points, l);
    let off = l.offsets_secs@;
    let st = offset_stamps(off);
    let n = off.len() as int;
    let idx2 = l2.source_indices@;
    assert(n <= usize::MAX) by {
        assert(n == l.source_indices@.len());
        assert(l.source_indices@.len() == l.source_indices.len());
    }
    assert forall|i: int| 0 <= i < n implies kept(st, i) by {
        assert forall|j: int| i < j < st.len() && #[trigger] st[j].finite implies st[j].ts_secs != st[i].ts_secs by {
            assert(off[i] < off[j]);
        }
    }
    assert(kept(st, 0) && kept(st, 1) && kept(st, 2));
    assert(three_kept(st));
    assert forall|a: int, b: int|
        0 <= a < st.len() && 0 <= b < st.len() && st[a].finite && st[b].finite
            implies #[trigger] st[b].ts_secs - #[trigger] st[a].ts_secs <= i64::MAX by {
        if a > 0 {
            assert(off[0] < off[a]);
        }
    }
    assert forall|a: int, b: int| 0 <= a < b < idx2.len() implies idx2[a] < idx2[b] by {
        assert(kept(st, idx2[a] as int) && kept(st, idx2[b] as int));
        assert(st[idx2[a] as int].ts_secs < st[idx2[b] as int].ts_secs);
        if idx2[b] < idx2[a] {
            assert(off[idx2[b] as int] < off[idx2[a] as int]);
        }
    }
    assert forall|v: int| 0 <= v < n implies #[trigger] idx2.contains(v as usize) by {
        assert(kept(st, v));
    }
    assert forall|a: int| 0 <= a < idx2.len() implies idx2[a] < n by {
        assert(kept(st, idx2[a] as int));
    }
    let m = idx2.len() as int;
    lemma_covering_indices(idx2, n, m - 1);
    assert(idx2.contains((n - 1) as usize));
    let j = choose|j: int| 0 <= j < idx2.len() && idx2[j] == (n - 1) as usize;
    assert(idx2[j] == j);
    assert(idx2[m - 1] == m - 1);
    assert(m == n);
    assert(l2.offsets_secs@ =~= off);
    assert(!unix_like(0));
}

/// The distinct timestamps that carry a finite value.
pub open spec fn finite_timestamps(points: Seq<PointStamp>) -> Set<i64> {
    Set::new(|t: i64| exists|i: int| 0 <= i < points.len() && #[trigger] points[i].finite && points[i].ts_secs == t)
}

/// Timestamps of the samples a layout keeps, in layout order.
pub open spec fn kept_timestamps(points: Seq<PointStamp>, idx: Seq<usize>) -> Seq<i64> {
    idx.map_values(|k: usize| points[k as int].ts_secs)
}

/// Every finite sample shares its timestamp with a kept one.
proof fn lemma_kept_of_finite(points: Seq<PointStamp>, i: int)
    requires
        0 <= i < points.len(),
        points[i].finite,
    ensures
        exists|j: int| kept(points, j) && points[j].ts_secs == points[i].ts_secs,
    decreases points.len() - i,
{
    if !kept(points, i) {
        let j = choose|j: int| i < j < points.len() && #[trigger] points[j].finite && points[j].ts_secs == points[i].ts_secs;
        lemma_kept_of_finite(points, j);
        let m = choose|m: int| kept(points, m) && points[m].ts_secs == points[j].ts_secs;
        assert(kept(points, m) && points[m].ts_secs == points[i].ts_secs);
    } else {
        assert(kept(points, i) && points[i].ts_secs == points[i].ts_secs);
    }
}

proof fn lemma_finite_timestamps_finite(points: Seq<PointStamp>)
    ensures
        finite_timestamps(points).finite(),
{
    let all = points.map_values(|p: PointStamp| p.ts_secs).to_set();
    assert(finite_timestamps(points).subset_of(all)) by {
        assert forall|t: i64| finite_timestamps(points).contains(t) implies all.contains(t) by {
            let i = choose|i: int| 0 <= i < points.len() && #[trigger] points[i].finite && points[i].ts_secs == t;
            assert(points.map_values(|p: PointStamp| p.ts_secs)[i] == t);
        }
    }
    vstd::seq_lib::seq_to_set_is_finite(points.map_values(|p: PointStamp| p.ts_secs));
    vstd::set_lib::lemma_len_subset(finite_timestamps(points), all);
}

/// The kept timestamps of a layout are the finite timestamps, ascending and without repeats.
proof fn lemma_layout_timestamps(points: Seq<PointStamp>, l: NormalizedLayout)
    requires
        layout_of(points, l),
        points.len() <= usize::MAX,
    ensures
        strictly_increasing(kept_timestamps(points, l.source_indices@)),
        kept_timestamps(points, l.source_indices@).to_set() == finite_timestamps(points),
        kept_timestamps(points, l.source_indices@).len() == l.source_indices@.len(),
{
    let idx = l.source_indices@;
    let ts = kept_timestamps(points, idx);
    assert forall|a: int, b: int| 0 <= a < b < ts.len() implies ts[a] < ts[b] by {
        assert(points[idx[a] as int].ts_secs < points[idx[b] as int].ts_secs);
    }
    assert forall|t: i64| ts.to_set().contains(t) <==> finite_timestamps(points).contains(t) by {
        if ts.to_set().contains(t) {
            let k = choose|k: int| 0 <= k < ts.len() && ts[k] == t;
            assert(kept(points, idx[k] as int));
            assert(points[idx[k] as int].finite);
        }
        if finite_timestamps(points).contains(t) {
            let i = choose|i: int| 0 <= i < points.len() && #[trigger] points[i].finite && points[i].ts_secs == t;
            lemma_kept_of_finite(points, i);
            let j = choose|j: int| kept(points, j) && points[j].ts_secs == points[i].ts_secs;
            assert(idx.contains(j as usize));
            let k = choose|k: int| 0 <= k < idx.len() && idx[k] == j as usize;
            assert(ts[k] == t);
            assert(ts.contains(t));
        }
    }
    assert(ts.to_set() =~= finite_timestamps(points));
}

/// A normalised series has one sample per distinct finite timestamp.
pub proof fn lemma_layout_counts(points: Seq<PointStamp>, l: NormalizedLayout)
    requires
        layout_of(points, l),
        points.len() <= usize::MAX,
    ensures
        finite_timestamps(points).finite(),
        l.source_indices@.len() == finite_timestamps(points).len(),
        l.offsets_secs@.len() == finite_timestamps(points).len(),
{
    lemma_layout_timestamps(points, l);
    let ts = kept_timestamps(points, l.source_indices@);
    assert(ts.no_duplicates()) by {
        assert forall|a: int, b: int| 0 <= a < ts.len() && 0 <= b < ts.len() && a != b implies ts[a] != ts[b] by {
            if a < b {
                assert(ts[a] < ts[b]);
            } else {
                assert(ts[b] < ts[a]);
            }
        }
    }
    ts.unique_seq_to_set();
    lemma_finite_timestamps_finite(points);
}

/// At least three samples are kept exactly when at least three distinct timestamps carry a
/// finite value, so normalisation refuses a series exactly when fewer do.
pub proof fn lemma_three_kept_count(points: Seq<PointStamp>)
    ensures
        three_kept(points) <==> finite_timestamps(points).len() >= 3,
{
    let s = finite_timestamps(points);
    lemma_finite_timestamps_finite(points);
    if three_kept(points) {
        let (a, b, c) = choose|a: int, b: int, c: int| a < b < c && kept(points, a) && kept(points, b) && kept(points, c);
        let ta = points[a].ts_secs;
        let tb = points[b].ts_secs;
        let tc = points[c].ts_secs;
        assert(points[b].finite && points[c].finite);
        assert(ta != tb && ta != tc && tb != tc);
        let three = Set::<i64>::empty().insert(ta).insert(tb).insert(tc);
        assert(three.len() == 3);
        assert(three.subset_of(s)) by {
            assert(points[a].finite && points[a].ts_secs == ta);
            assert(s.contains(ta));
            assert(s.contains(tb));
            assert(s.contains(tc));
        }
        vstd::set_lib::lemma_len_subset(three, s);
    }
    if s.len() >= 3 {
        let t1 = s.choose();
        let s1 = s.remove(t1);
        let t2 = s1.choose();
        let s2 = s1.remove(t2);
        let t3 = s2.choose();
        assert(s1.len() >= 2 && s2.len() >= 1);
        assert(s.contains(t1) && s1.contains(t2) && s2.contains(t3));
        assert(t1 != t2 && t1 != t3 && t2 != t3);
        let i1 = choose|i: int| 0 <= i < points.len() && #[trigger] points[i].finite && points[i].ts_secs == t1;
        let i2 = choose|i: int| 0 <= i < points.len() && #[trigger] points[i].finite && points[i].ts_secs == t2;
        let i3 = choose|i: int| 0 <= i < points.len() && #[trigger] points[i].finite && points[i].ts_secs == t3;
        lemma_kept_of_finite(points, i1);
        lemma_kept_of_finite(points, i2);
        lemma_kept_of_finite(points, i3);
        let x = choose|j: int| kept(points, j) && points[j].ts_secs == points[i1].ts_secs;
        let y = choose|j: int| kept(points, j) && points[j].ts_secs == points[i2].ts_secs;
        let z = choose|j: int| kept(points, j) && points[j].ts_secs == points[i3].ts_secs;
        assert(x != y && y != z && x != z);
        if x < y && y < z {
            assert(three_kept(points));
        } else if x < z && z < y {
            assert(three_kept(points));
        } else if y < x && x < z {
            assert(three_kept(points));
        } else if y < z && z < x {
            assert(three_kept(points));
        } else if z < x && x < y {
            assert(three_kept(points));
        } else {
            assert(three_kept(points));
        }
    }
}

/// Two inputs with the same finite timestamps normalise to the same shape: the same offsets,
/// window start, interval and window, and samples with equal stamps.
pub proof fn lemma_layout_by_timestamps(points: Seq<PointStamp>, points2: Seq<PointStamp>, l: NormalizedLayout, l2: NormalizedLayout)
    requires
        points.len() <= usize::MAX,
        points2.len() <= usize::MAX,
        finite_timestamps(points) == finite_timestamps(points2),
        layout_of(points, l),
        layout_of(points2, l2),
    ensures
        l2.source_indices@.len() == l.source_indices@.len(),
        l2.offsets_secs@ == l.offsets_secs@,
        l2.window_start_ts_secs == l.window_start_ts_secs,
        l2.interval_secs == l.interval_secs,
        l2.window_secs == l.window_secs,
        forall|k: int| 0 <= k < l.source_indices@.len() ==> points2[#[trigger] l2.source_indices@[k] as int] == points[l.source_indices@[k] as int],
{
    lemma_layout_timestamps(points, l);
    lemma_layout_timestamps(points2, l2);
    let ts = kept_timestamps(points, l.source_indices@);
    let ts2 = kept_timestamps(points2, l2.source_indices@);
    lemma_increasing_unique(ts, ts2);
    let n = ts.len() as int;
    assert forall|k: int| 0 <= k < n implies points2[#[trigger] l2.source_indices@[k] as int] == points[l.source_indices@[k] as int] by {
        assert(ts[k] == ts2[k]);
        assert(kept(points, l.source_indices@[k] as int));
        assert(kept(points2, l2.source_indices@[k] as int));
    }
    assert(ts[0] == ts2[0]);
    assert(l2.offsets_secs@ =~= l.offsets_secs@) by {
        assert forall|k: int| 0 <= k < n implies l2.offsets_secs@[k] == l.offsets_secs@[k] by {
            assert(ts[k] == ts2[k]);
        }
    }
}

/// No two finite samples share a timestamp.
pub open spec fn finite_timestamps_distinct(points: Seq<PointStamp>) -> bool {
    forall|a: int, b: int| 0 <= a < points.len() && 0 <= b < points.len() && a != b
        && #[trigger] points[a].finite && #[trigger] points[b].finite ==> points[a].ts_secs != points[b].ts_secs
}

/// Reordering the samples, sample `j` of `points2` being sample `perm[j]` of `points`, changes
/// neither whether normalisation succeeds nor the shape it gives; when no two finite samples
/// share a timestamp, it keeps the same samples, in the same order.
pub proof fn lemma_normalize_reorder(
    points: Seq<PointStamp>,
    points2: Seq<PointStamp>,
    perm: Seq<int>,
    l: NormalizedLayout,
    l2: NormalizedLayout,
)
    requires
        points.len() <= usize::MAX,
        points2.len() == points.len(),
        perm.len() == points.len(),
        forall|j: int| 0 <= j < points.len() ==> 0 <= #[trigger] perm[j] < points.len() && points2[j] == points[perm[j]],
        forall|a: int, b: int| 0 <= a < b < points.len() ==> perm[a] != perm[b],
    ensures
        finite_timestamps(points2) == finite_timestamps(points),
        three_kept(points2) == three_kept(points),
        layout_of(points, l) && layout_of(points2, l2) ==> {
            &&& l2.offsets_secs@ == l.offsets_secs@
            &&& l2.window_start_ts_secs == l.window_start_ts_secs
            &&& l2.interval_secs == l.interval_secs
            &&& l2.window_secs == l.window_secs
        },
        layout_of(points, l) && layout_of(points2, l2) && finite_timestamps_distinct(points) ==>
            forall|k: int| 0 <= k < l.source_indices@.len() ==> perm[#[trigger] l2.source_indices@[k] as int] == l.source_indices@[k] as int,
{
    let n = points.len() as int;
    lemma_injection_onto(perm, n);
    assert forall|t: i64| finite_timestamps(points2).contains(t) <==> finite_timestamps(points).contains(t) by {
        if finite_timestamps(points2).contains(t) {
            let j = choose|j: int| 0 <= j < points2.len() && #[trigger] points2[j].finite && points2[j].ts_secs == t;
            assert(points[perm[j]].finite);
        }
        if finite_timestamps(points).contains(t) {
            let i = choose|i: int| 0 <= i < points.len() && #[trigger] points[i].finite && points[i].ts_secs == t;
            assert(perm.contains(i));
            let j = choose|j: int| 0 <= j < perm.len() && perm[j] == i;
            assert(points2[j].finite);
        }
    }
    assert(finite_timestamps(points2) =~= finite_timestamps(points));
    lemma_three_kept_count(points);
    lemma_three_kept_count(points2);
    if layout_of(points, l) && layout_of(points2, l2) {
        lemma_layout_by_timestamps(points, points2, l, l2);
        if finite_timestamps_distinct(points) {
            assert forall|k: int| 0 <= k < l.source_indices@.len() implies perm[#[trigger] l2.source_indices@[k] as int] == l.source_indices@[k] as int by {
                let j = l2.source_indices@[k] as int;
                let i = l.source_indices@[k] as int;
                assert(kept(points2, j));
                assert(kept(points, i));
                assert(points2[j] == points[i]);
                assert(points[perm[j]] == points2[j]);
                assert(points[perm[j]].finite && points[i].finite);
            }
        }
    }
}

} // verus!
