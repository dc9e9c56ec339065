use vstd::prelude::*;
use vstd::relations::{sorted_by, total_ordering};
use vstd::seq_lib::{lemma_multiset_commutative, lemma_sorted_unique};

verus! {

broadcast use vstd::seq_lib::group_to_multiset_ensures;

/// Numeric order on signed timestamps and durations.
pub open spec fn i64_le() -> spec_fn(i64, i64) -> bool {
    |a: i64, b: i64| a <= b
}

/// The ascending arrangement of a sequence of integers.
pub open spec fn ascending(s: Seq<i64>) -> Seq<i64> {
    s.sort_by(i64_le())
}

pub proof fn lemma_i64_le_total()
    ensures
        total_ordering(i64_le()),
{
}

/// Inserting an element anywhere adds it to the multiset of elements.
pub proof fn lemma_insert_multiset<A>(s: Seq<A>, p: int, x: A)
    requires
        0 <= p <= s.len(),
    ensures
        s.insert(p, x).to_multiset() =~= s.to_multiset().insert(x),
{
    let a = s.take(p);
    let b = s.skip(p);
    assert(s =~= a + b);
    assert(s.insert(p, x) =~= a.push(x) + b);
    lemma_multiset_commutative(a.push(x), b);
    lemma_multiset_commutative(a, b);
}

/// The values of `v` in ascending order, duplicates kept.
pub fn sort_i64(v: &[i64]) -> (r: Vec<i64>)
    ensures
        r@ == ascending(v@),
{
    let mut out: Vec<i64> = Vec::new();
    let mut i: usize = 0;
    while i < v.len()
        invariant
            i <= v.len(),
            sorted_by(out@, i64_le()),
            out@.to_multiset() == v@.take(i as int).to_multiset(),
        decreases v.len() - i,
    {
        let x = v[i];
        let mut p: usize = 0;
        while p < out.len() && out[p] <= x
            invariant
                p <= out.len(),
                forall|k: int| 0 <= k < p ==> out@[k] <= x,
            decreases out.len() - p,
        {
            p += 1;
        }
        proof {
            lemma_insert_multiset(out@, p as int, x);
            assert(v@.take(i + 1) =~= v@.take(i as int).push(x));
        }
        let ghost before = out@;
        out.insert(p, x);
        assert(sorted_by(out@, i64_le())) by {
            assert forall|a: int, b: int| 0 <= a < b < out@.len() implies #[trigger] (i64_le())(out@[a], out@[b]) by {
                if a < p && b > p {
                    assert(before[a] <= x);
                }
                if a == p as int && b > p {
                    assert(p < before.len());
                    assert(before[p as int] > x);
                    assert(before[p as int] <= before[b - 1]) by {
                        if b - 1 > p {
                            assert((i64_le())(before[p as int], before[b - 1]));
                        }
                    }
                }
                if a > p {
                    assert((i64_le())(before[a - 1], before[b - 1]));
                }
                if b < p {
                    assert((i64_le())(before[a], before[b]));
                }
            }
        }
        i += 1;
    }
    proof {
        assert(v@.take(v.len() as int) =~= v@);
        lemma_i64_le_total();
        v@.lemma_sort_by_ensures(i64_le());
        lemma_sorted_unique(out@, ascending(v@), i64_le());
    }
    out
}

/// Whether a sequence strictly increases.
pub open spec fn strictly_increasing(s: Seq<i64>) -> bool {
    forall|a: int, b: int| 0 <= a < b < s.len() ==> s[a] < s[b]
}

/// Two strictly increasing sequences with the same elements are the same sequence.
pub proof fn lemma_increasing_unique(a: Seq<i64>, b: Seq<i64>)
    requires
        strictly_increasing(a),
        strictly_increasing(b),
        a.to_set() == b.to_set(),
    ensures
        a == b,
    decreases a.len(),
{
    if a.len() == 0 {
        if b.len() > 0 {
            assert(a.to_set().contains(b[0]));
        }
        assert(a =~= b);
    } else {
        assert(b.to_set().contains(a[0]));
        assert(b.len() > 0);
        assert(a.to_set().contains(b[0]));
        let i = choose|i: int| 0 <= i < a.len() && a[i] == b[0];
        let j = choose|j: int| 0 <= j < b.len() && b[j] == a[0];
        if i > 0 {
            assert(a[0] < a[i]);
        }
        if j > 0 {
            assert(b[0] < b[j]);
        }
        assert(a[0] == b[0]);
        let a1 = a.drop_first();
        let b1 = b.drop_first();
        assert forall|x: i64| a1.to_set().contains(x) implies b1.to_set().contains(x) by {
            let p = choose|p: int| 0 <= p < a1.len() && a1[p] == x;
            assert(a[p + 1] == x && a[0] < a[p + 1]);
            assert(a.to_set().contains(x));
            let q = choose|q: int| 0 <= q < b.len() && b[q] == x;
            assert(q != 0);
            assert(b1[q - 1] == x);
        }
        assert forall|x: i64| b1.to_set().contains(x) implies a1.to_set().contains(x) by {
            let p = choose|p: int| 0 <= p < b1.len() && b1[p] == x;
            assert(b[p + 1] == x && b[0] < b[p + 1]);
            assert(b.to_set().contains(x));
            let q = choose|q: int| 0 <= q < a.len() && a[q] == x;
            assert(q != 0);
            assert(a1[q - 1] == x);
        }
        assert(a1.to_set() =~= b1.to_set());
        lemma_increasing_unique(a1, b1);
        assert(a =~= b) by {
            assert forall|k: int| 0 <= k < a.len() implies a[k] == b[k] by {
                if k > 0 {
                    assert(a[k] == a1[k - 1]);
                    assert(b[k] == b1[k - 1]);
                }
            }
        }
    }
}

/// A list of `n` distinct indices below `n` names every index below `n`.
pub proof fn lemma_injection_onto(perm: Seq<int>, n: int)
    requires
        perm.len() == n,
        forall|j: int| 0 <= j < n ==> 0 <= #[trigger] perm[j] < n,
        forall|a: int, b: int| 0 <= a < b < n ==> perm[a] != perm[b],
    ensures
        forall|i: int| 0 <= i < n ==> #[trigger] perm.contains(i),
{
    let dom = vstd::set_lib::set_int_range(0, n);
    let f = |j: int| perm[j];
    let img = dom.map(f);
    vstd::set_lib::lemma_int_range(0, n);
    assert(vstd::relations::injective_on(f, dom)) by {
        assert forall|a: int, b: int| dom.contains(a) && dom.contains(b) && #[trigger] f(a) == #[trigger] f(b) implies a == b by {
            if a < b {
                assert(perm[a] != perm[b]);
            } else if b < a {
                assert(perm[b] != perm[a]);
            }
        }
    }
    vstd::set_lib::lemma_map_size(dom, img, f);
    assert(img.subset_of(dom)) by {
        assert forall|i: int| img.contains(i) implies dom.contains(i) by {
            let j = choose|j: int| dom.contains(j) && f(j) == i;
            assert(0 <= perm[j] < n);
        }
    }
    vstd::set_lib::lemma_subset_equality(img, dom);
    assert forall|i: int| 0 <= i < n implies #[trigger] perm.contains(i) by {
        assert(dom.contains(i));
        assert(img.contains(i));
        let j = choose|j: int| dom.contains(j) && f(j) == i;
        assert(perm[j] == i);
    }
}

/// The distinct values of `v` in ascending order.
pub fn sorted_distinct_i64(v: &[i64]) -> (r: Vec<i64>)
    ensures
        strictly_increasing(r@),
        r@.to_set() == v@.to_set(),
{
    let mut out: Vec<i64> = Vec::new();
    let mut i: usize = 0;
    while i < v.len()
        invariant
            i <= v.len(),
            strictly_increasing(out@),
            out@.to_set() == v@.take(i as int).to_set(),
        decreases v.len() - i,
    {
        let x = v[i];
        let mut p: usize = 0;
        while p < out.len() && out[p] < x
            invariant
                p <= out.len(),
                forall|k: int| 0 <= k < p ==> out@[k] < x,
            decreases out.len() - p,
        {
            p += 1;
        }
        let ghost before = out@;
        assert(v@.take(i + 1) =~= v@.take(i as int).push(x));
        if p < out.len() && out[p] == x {
            assert(v@.take(i + 1).to_set() =~= v@.take(i as int).to_set()) by {
                assert(before.contains(x));
                assert(v@.take(i as int).to_set().contains(x));
            }
        } else {
            out.insert(p, x);
            assert(out@ =~= before.take(p as int).push(x) + before.skip(p as int));
            assert(out@.to_set() =~= v@.take(i + 1).to_set()) by {
                assert forall|y: i64| out@.to_set().contains(y) <==> v@.take(i + 1).to_set().contains(y) by {
                    if out@.contains(y) {
                        let k = choose|k: int| 0 <= k < out@.len() && out@[k] == y;
                        if k < p {
                            assert(before[k] == y);
                        } else if k > p {
                            assert(before[k - 1] == y);
                        }
                    }
                    if before.contains(y) {
                        let k = choose|k: int| 0 <= k < before.len() && before[k] == y;
                        if k < p {
                            assert(out@[k] == y);
                        } else {
                            assert(out@[k + 1] == y);
                        }
                    }
                    if y == x {
                        assert(out@[p as int] == x);
                    }
                    let t = v@.take(i as int);
                    if t.contains(y) {
                        let k = choose|k: int| 0 <= k < t.len() && t[k] == y;
                        assert(v@.take(i + 1)[k] == y);
                    }
                    let t1 = v@.take(i + 1);
                    if t1.contains(y) {
                        let k = choose|k: int| 0 <= k < t1.len() && t1[k] == y;
                        if k < i {
                            assert(t[k] == y);
                        }
                    }
                    assert(t.to_set().contains(y) == before.to_set().contains(y));
                    assert(t.to_set().contains(y) == t.contains(y));
                    assert(before.to_set().contains(y) == before.contains(y));
                    assert(t1.to_set().contains(y) == t1.contains(y));
                    assert(out@.to_set().contains(y) == out@.contains(y));
                    if out@.contains(y) {
                        assert(before.contains(y) || y == x);
                        if y == x {
                            assert(t1[i as int] == x);
                        } else {
                            assert(t.contains(y));
                            let k = choose|k: int| 0 <= k < t.len() && t[k] == y;
                            assert(t1[k] == y);
                        }
                        assert(t1.contains(y));
                    }
                    if t1.contains(y) {
                        assert(t.contains(y) || y == x);
                        assert(out@.contains(y));
                    }
                }
            }
            assert(strictly_increasing(out@)) by {
                assert forall|a: int, b: int| 0 <= a < b < out@.len() implies out@[a] < out@[b] by {
                    if a == p as int && b > p {
                        assert(before[p as int] >= x);
                        assert(before[p as int] != x);
                    }
                }
            }
        }
        i += 1;
    }
    assert(v@.take(v.len() as int) =~= v@);
    out
}

/// Inserting an element before a tail in which no element satisfies `pred` extends the filtered
/// sequence at its end.
pub proof fn lemma_filter_insert<A>(s: Seq<A>, p: int, y: A, pred: spec_fn(A) -> bool)
    requires
        0 <= p <= s.len(),
        pred(y) ==> forall|q: int| p <= q < s.len() ==> !pred(#[trigger] s[q]),
    ensures
        s.insert(p, y).filter(pred) == if pred(y) { s.filter(pred).push(y) } else { s.filter(pred) },
{
    let a = s.take(p);
    let b = s.skip(p);
    assert(s =~= a + b);
    assert(s.insert(p, y) =~= a.push(y) + b);
    a.lemma_filter_push(y, pred);
    if pred(y) {
        assert(b.all(|x: A| !pred(x)));
        b.lemma_all_neg_filter_empty(pred);
        assert(b.filter(pred) =~= Seq::<A>::empty());
    }
    assert((a + b).filter(pred) == a.filter(pred) + b.filter(pred));
    assert((a.push(y) + b).filter(pred) == a.push(y).filter(pred) + b.filter(pred));
    if pred(y) {
        assert(a.filter(pred) + Seq::<A>::empty() =~= a.filter(pred));
        assert(a.push(y).filter(pred) + Seq::<A>::empty() =~= a.push(y).filter(pred));
    }
}

} // verus!
