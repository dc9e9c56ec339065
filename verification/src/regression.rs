use vstd::prelude::*;

use crate::payload::CanonicalAnalysis;
use crate::schema::{EventKind, Scope};
use crate::text::{dec_digits, join_text, lemma_join_push, push_usize};

verus! {

/// Pass/fail tally of one scope.
#[derive(Clone, Copy, Debug, PartialEq, Eq, Structural)]
pub struct ScopeRegressionSummary {
    pub total: usize,
    pub passed: usize,
    pub failed: usize,
}

/// A case whose top events differ from the expected ones.
#[derive(Clone, Debug, PartialEq)]
pub struct RegressionFailure {
    pub case_name: String,
    pub scope: Scope,
    pub subject_id: String,
    pub expected: Vec<EventKind>,
    pub actual: Vec<EventKind>,
    pub missing: Vec<EventKind>,
    pub unexpected: Vec<EventKind>,
}

/// Result of a regression run.
#[derive(Clone, Debug, PartialEq)]
pub struct RegressionReport {
    pub total: usize,
    pub passed: usize,
    pub line_level_top3: ScopeRegressionSummary,
    pub group_level_top3: ScopeRegressionSummary,
    pub failed: Vec<RegressionFailure>,
}

/// One analysed regression case: the kinds it expects and the kinds the analysis ranked on top
/// for its subject (empty when the subject produced no analysis).
#[derive(Clone, Debug, PartialEq)]
pub struct CaseOutcome {
    pub case_name: String,
    pub scope: Scope,
    pub subject_id: String,
    pub expected: Vec<EventKind>,
    pub actual: Vec<EventKind>,
}

/// Kinds of `expected` that `actual` lacks, in expected order.
pub open spec fn missing_spec(expected: Seq<EventKind>, actual: Seq<EventKind>) -> Seq<EventKind> {
    expected.filter(|k: EventKind| !actual.contains(k))
}

/// Copies a slice of kinds.
pub fn copy_kinds(kinds: &[EventKind]) -> (r: Vec<EventKind>)
    ensures
        r@ == kinds@,
{
    let mut out: Vec<EventKind> = Vec::new();
    let mut i: usize = 0;
    while i < kinds.len()
        invariant
            i <= kinds.len(),
            out@ == kinds@.take(i as int),
        decreases kinds.len() - i,
    {
        out.push(kinds[i]);
        assert(kinds@.take(i + 1) =~= kinds@.take(i as int).push(kinds@[i as int]));
        i += 1;
    }
    assert(kinds@.take(kinds.len() as int) =~= kinds@);
    out
}

/// Whether `needle` occurs in `kinds`.
pub fn contains_kind(kinds: &[EventKind], needle: EventKind) -> (b: bool)
    ensures
        b == kinds@.contains(needle),
{
    let mut i: usize = 0;
    while i < kinds.len()
        invariant
            i <= kinds.len(),
            forall|j: int| 0 <= j < i ==> kinds@[j] != needle,
        decreases kinds.len() - i,
    {
        if kinds[i].same(needle) {
            return true;
        }
        i += 1;
    }
    false
}

/// Elements of `from` that `other` lacks, in order.
fn kinds_not_in(from: &[EventKind], other: &[EventKind]) -> (r: Vec<EventKind>)
    ensures
        r@ == missing_spec(from@, other@),
{
    let ghost pred = |k: EventKind| !other@.contains(k);
    let mut out: Vec<EventKind> = Vec::new();
    let mut i: usize = 0;
    while i < from.len()
        invariant
            i <= from.len(),
            pred == (|k: EventKind| !other@.contains(k)),
            out@ == from@.take(i as int).filter(pred),
        decreases from.len() - i,
    {
        let k = from[i];
        proof {
            from@.take(i as int).lemma_filter_push(k, pred);
            assert(from@.take(i + 1) =~= from@.take(i as int).push(k));
        }
        if !contains_kind(other, k) {
            out.push(k);
        }
        i += 1;
    }
    assert(from@.take(from.len() as int) =~= from@);
    out
}

/// Expected kinds that did not come out, in expected order.
pub fn missing_events(expected: &[EventKind], actual: &[EventKind]) -> (r: Vec<EventKind>)
    ensures
        r@ == missing_spec(expected@, actual@),
{
    kinds_not_in(expected, actual)
}

/// Kinds that came out but were not expected, in actual order.
pub fn unexpected_events(expected: &[EventKind], actual: &[EventKind]) -> (r: Vec<EventKind>)
    ensures
        r@ == missing_spec(actual@, expected@),
{
    kinds_not_in(actual, expected)
}

/// Wire names of kinds joined by `", "`.
pub open spec fn kinds_text(kinds: Seq<EventKind>) -> Seq<char> {
    join_text(kinds.map_values(|k: EventKind| k.label()), ", "@)
}

/// Renders kinds as their wire names separated by a comma and a space.
pub fn render_kinds(kinds: &[EventKind]) -> (r: String)
    ensures
        r@ == kinds_text(kinds@),
{
    let mut out = String::new();
    let mut i: usize = 0;
    while i < kinds.len()
        invariant
            i <= kinds.len(),
            out@ == kinds_text(kinds@.take(i as int)),
        decreases kinds.len() - i,
    {
        let ghost before = kinds@.take(i as int).map_values(|k: EventKind| k.label());
        proof {
            assert(kinds@.take(i + 1).map_values(|k: EventKind| k.label()) =~= before.push(kinds@[i as int].label()));
            lemma_join_push(before, ", "@, kinds@[i as int].label());
        }
        if i > 0 {
            out.append(", ");
        }
        out.append(kinds[i].as_str());
        i += 1;
    }
    assert(kinds@.take(kinds.len() as int) =~= kinds@);
    out
}

/// Whether two kind lists are equal.
pub fn same_kinds(a: &[EventKind], b: &[EventKind]) -> (r: bool)
    ensures
        r == (a@ == b@),
{
    if a.len() != b.len() {
        return false;
    }
    let mut i: usize = 0;
    while i < a.len()
        invariant
            a.len() == b.len(),
            i <= a.len(),
            forall|j: int| 0 <= j < i ==> a@[j] == b@[j],
        decreases a.len() - i,
    {
        if !a[i].same(b[i]) {
            return false;
        }
        i += 1;
    }
    assert(a@ =~= b@);
    true
}

/// The text line of one scope summary.
pub open spec fn summary_text(name: Seq<char>, s: ScopeRegressionSummary) -> Seq<char> {
    name + " total="@ + dec_digits(s.total as nat) + " passed="@ + dec_digits(s.passed as nat)
        + " failed="@ + dec_digits(s.failed as nat)
}

/// The text line of one failure.
pub open spec fn failure_text(f: RegressionFailure) -> Seq<char> {
    "FAIL ["@ + f.scope.label() + "] "@ + f.case_name@ + " subject="@ + f.subject_id@
        + " expected=["@ + kinds_text(f.expected@) + "] actual=["@ + kinds_text(f.actual@)
        + "] missing=["@ + kinds_text(f.missing@) + "] unexpected=["@ + kinds_text(f.unexpected@)
        + "]"@
}

/// The lines of a report, in order.
pub open spec fn report_lines(r: RegressionReport) -> Seq<Seq<char>> {
    let head = seq![
        "regression total="@ + dec_digits(r.total as nat) + " passed="@ + dec_digits(
            r.passed as nat,
        ) + " failed="@ + dec_digits(r.failed@.len()),
        summary_text("line_level_top3"@, r.line_level_top3),
        summary_text("group_level_top3"@, r.group_level_top3),
    ];
    let fails = r.failed@.map_values(|f: RegressionFailure| failure_text(f));
    if r.failed@.len() == 0 {
        head.push("all regression cases passed"@)
    } else {
        head + fails
    }
}

/// A report has three tally lines and then one line for each failure, in order, or a single
/// closing line when nothing failed.
pub proof fn lemma_report_lines_law(r: RegressionReport)
    ensures
        report_lines(r).len() == 3 + if r.failed@.len() == 0 { 1 } else { r.failed@.len() as int },
        forall|k: int| 0 <= k < r.failed@.len() ==> report_lines(r)[3 + k] == failure_text(#[trigger] r.failed@[k]),
        r.failed@.len() == 0 ==> report_lines(r)[3] == "all regression cases passed"@,
        report_lines(r)[1] == summary_text("line_level_top3"@, r.line_level_top3),
        report_lines(r)[2] == summary_text("group_level_top3"@, r.group_level_top3),
{
}

fn push_summary(out: &mut String, name: &str, s: ScopeRegressionSummary)
    ensures
        final(out)@ == old(out)@ + summary_text(name@, s),
{
    out.append(name);
    out.append(" total=");
    push_usize(out, s.total);
    out.append(" passed=");
    push_usize(out, s.passed);
    out.append(" failed=");
    push_usize(out, s.failed);
    assert(final(out)@ =~= old(out)@ + summary_text(name@, s));
}

fn push_failure(out: &mut String, f: &RegressionFailure)
    ensures
        final(out)@ == old(out)@ + failure_text(*f),
{
    out.append("FAIL [");
    out.append(f.scope.as_str());
    out.append("] ");
    out.append(f.case_name.as_str());
    out.append(" subject=");
    out.append(f.subject_id.as_str());
    out.append(" expected=[");
    out.append(render_kinds(f.expected.as_slice()).as_str());
    out.append("] actual=[");
    out.append(render_kinds(f.actual.as_slice()).as_str());
    out.append("] missing=[");
    out.append(render_kinds(f.missing.as_slice()).as_str());
    out.append("] unexpected=[");
    out.append(render_kinds(f.unexpected.as_slice()).as_str());
    out.append("]");
    assert(final(out)@ =~= old(out)@ + failure_text(*f));
}

impl RegressionReport {
    /// Renders the report as lines separated by newlines: the overall tally, the line and group
    /// tallies, then one line per failure, or a closing line when nothing failed.
    pub fn render_text(&self) -> (r: String)
        ensures
            r@ == join_text(report_lines(*self), "\n"@),
    {
        let mut out = String::new();
        out.append("regression total=");
        push_usize(&mut out, self.total);
        out.append(" passed=");
        push_usize(&mut out, self.passed);
        out.append(" failed=");
        push_usize(&mut out, self.failed.len());
        let ghost l0 = out@;
        out.append("\n");
        push_summary(&mut out, "line_level_top3", self.line_level_top3);
        out.append("\n");
        push_summary(&mut out, "group_level_top3", self.group_level_top3);
        let ghost head = report_lines(*self).take(3);
        proof {
            let h = seq![
                l0,
                summary_text("line_level_top3"@, self.line_level_top3),
                summary_text("group_level_top3"@, self.group_level_top3),
            ];
            lemma_join_push(Seq::empty(), "\n"@, h[0]);
            assert(seq![h[0]] =~= Seq::<Seq<char>>::empty().push(h[0]));
            lemma_join_push(seq![h[0]], "\n"@, h[1]);
            assert(seq![h[0], h[1]] =~= seq![h[0]].push(h[1]));
            lemma_join_push(seq![h[0], h[1]], "\n"@, h[2]);
            assert(h =~= seq![h[0], h[1]].push(h[2]));
            assert(out@ =~= join_text(h, "\n"@));
        }
        let n = self.failed.len();
        let ghost fails = self.failed@.map_values(|f: RegressionFailure| failure_text(f));
        let ghost h3 = seq![
            l0,
            summary_text("line_level_top3"@, self.line_level_top3),
            summary_text("group_level_top3"@, self.group_level_top3),
        ];
        let mut i: usize = 0;
        while i < n
            invariant
                h3.len() == 3,
                n == self.failed.len(),
                i <= n,
                fails == self.failed@.map_values(|f: RegressionFailure| failure_text(f)),
                out@ == join_text(h3 + fails.take(i as int), "\n"@),
            decreases n - i,
        {
            proof {
                assert((h3 + fails.take(i as int)).len() == 3 + i);
                lemma_join_push(h3 + fails.take(i as int), "\n"@, fails[i as int]);
                assert(h3 + fails.take(i + 1) =~= (h3 + fails.take(i as int)).push(fails[i as int]));
            }
            let ghost before = out@;
            out.append("\n");
            push_failure(&mut out, &self.failed[i]);
            assert(fails[i as int] == failure_text(self.failed@[i as int]));
            assert(out@ =~= before + "\n"@ + fails[i as int]);
            assert(out@ == join_text((h3 + fails.take(i as int)).push(fails[i as int]), "\n"@));
            assert(out@ == join_text(h3 + fails.take(i + 1), "\n"@));
            i += 1;
        }
        if n == 0 {
            proof {
                lemma_join_push(h3, "\n"@, "all regression cases passed"@);
                assert(h3 + fails.take(0) =~= h3);
            }
            out.append("\n");
            out.append("all regression cases passed");
        }
        proof {
            assert(fails.take(n as int) =~= fails);
            assert(report_lines(*self) =~= if n == 0 { h3.push("all regression cases passed"@) } else { h3 + fails });
        }
        out
    }
}

/// Top event kinds of the first analysis whose subject is `subject_id`, or none when no analysis
/// has that subject.
pub open spec fn subject_kinds(analyses: Seq<CanonicalAnalysis>, subject_id: Seq<char>) -> Seq<EventKind>
    decreases analyses.len(),
{
    if analyses.len() == 0 {
        Seq::empty()
    } else if analyses[0].subject_id@ == subject_id {
        analyses[0].top_events@.map_values(|e: crate::events::Event| e.kind)
    } else {
        subject_kinds(analyses.drop_first(), subject_id)
    }
}

/// The ranked kinds a run produced for a case's subject.
pub fn top_kinds_for_subject(analyses: &[CanonicalAnalysis], subject_id: &String) -> (r: Vec<EventKind>)
    ensures
        r@ == subject_kinds(analyses@, subject_id@),
{
    let mut i: usize = 0;
    assert(analyses@.skip(0) =~= analyses@);
    while i < analyses.len()
        invariant
            i <= analyses@.len(),
            subject_kinds(analyses@, subject_id@) == subject_kinds(analyses@.skip(i as int), subject_id@),
        decreases analyses@.len() - i,
    {
        proof {
            assert(analyses@.skip(i as int).drop_first() =~= analyses@.skip(i + 1));
            assert(analyses@.skip(i as int)[0] == analyses@[i as int]);
        }
        if analyses[i].subject_id == *subject_id {
            let events = &analyses[i].top_events;
            let mut out: Vec<EventKind> = Vec::new();
            let mut k: usize = 0;
            while k < events.len()
                invariant
                    k <= events@.len(),
                    out@ == events@.take(k as int).map_values(|e: crate::events::Event| e.kind),
                decreases events@.len() - k,
            {
                out.push(events[k].kind);
                assert(events@.take(k + 1).map_values(|e: crate::events::Event| e.kind) =~= events@.take(k as int).map_values(|e: crate::events::Event| e.kind).push(events@[k as int].kind));
                k += 1;
            }
            assert(events@.take(events@.len() as int) =~= events@);
            return out;
        }
        i += 1;
    }
    assert(analyses@.skip(i as int) =~= Seq::<CanonicalAnalysis>::empty());
    Vec::new()
}

/// Whether a case produced exactly the expected kinds in the expected order.
pub open spec fn passes(o: CaseOutcome) -> bool {
    o.expected@ == o.actual@
}

/// Number of outcomes that satisfy `p`.
pub open spec fn count_outcomes(s: Seq<CaseOutcome>, p: spec_fn(CaseOutcome) -> bool) -> nat
    decreases s.len(),
{
    if s.len() == 0 {
        0
    } else {
        count_outcomes(s.drop_last(), p) + if p(s.last()) { 1nat } else { 0nat }
    }
}

/// Tally of one scope over the outcomes.
pub open spec fn scope_tally(s: Seq<CaseOutcome>, scope: Scope) -> (nat, nat, nat) {
    (
        count_outcomes(s, |o: CaseOutcome| o.scope == scope),
        count_outcomes(s, |o: CaseOutcome| o.scope == scope && passes(o)),
        count_outcomes(s, |o: CaseOutcome| o.scope == scope && !passes(o)),
    )
}

/// The outcomes that failed, in order.
pub open spec fn failing(s: Seq<CaseOutcome>) -> Seq<CaseOutcome> {
    s.filter(|o: CaseOutcome| !passes(o))
}

/// A failure entry records its case and the kinds missing from and added to the expectation.
pub open spec fn failure_of(f: RegressionFailure, o: CaseOutcome) -> bool {
    &&& f.case_name@ == o.case_name@
    &&& f.scope == o.scope
    &&& f.subject_id@ == o.subject_id@
    &&& f.expected@ == o.expected@
    &&& f.actual@ == o.actual@
    &&& f.missing@ == missing_spec(o.expected@, o.actual@)
    &&& f.unexpected@ == missing_spec(o.actual@, o.expected@)
}

pub open spec fn summary_is(t: ScopeRegressionSummary, v: (nat, nat, nat)) -> bool {
    t.total == v.0 && t.passed == v.1 && t.failed == v.2
}

proof fn lemma_count_step(s: Seq<CaseOutcome>, i: int, p: spec_fn(CaseOutcome) -> bool)
    requires
        0 <= i < s.len(),
    ensures
        count_outcomes(s.take(i + 1), p) == count_outcomes(s.take(i), p) + if p(s[i]) { 1nat } else { 0nat },
        count_outcomes(s.take(i), p) <= i,
    decreases i,
{
    assert(s.take(i + 1).drop_last() =~= s.take(i));
    if i > 0 {
        lemma_count_step(s, i - 1, p);
    }
}

/// Tallies analysed regression cases: overall and per-scope pass counts, and one failure entry
/// per mismatching case, in case order.
pub fn tally_outcomes(outcomes: &[CaseOutcome]) -> (r: RegressionReport)
    ensures
        r.total == outcomes@.len(),
        r.passed == count_outcomes(outcomes@, |o: CaseOutcome| passes(o)),
        summary_is(r.line_level_top3, scope_tally(outcomes@, Scope::Line)),
        summary_is(r.group_level_top3, scope_tally(outcomes@, Scope::Group)),
        r.failed@.len() == failing(outcomes@).len(),
        forall|k: int| 0 <= k < r.failed@.len() ==> failure_of(#[trigger] r.failed@[k], failing(outcomes@)[k]),
{
    let ghost s = outcomes@;
    let ghost pass_p = |o: CaseOutcome| passes(o);
    let ghost fail_p = |o: CaseOutcome| !passes(o);
    let ghost line_p = |o: CaseOutcome| o.scope == Scope::Line;
    let ghost line_pass = |o: CaseOutcome| o.scope == Scope::Line && passes(o);
    let ghost line_fail = |o: CaseOutcome| o.scope == Scope::Line && !passes(o);
    let ghost group_p = |o: CaseOutcome| o.scope == Scope::Group;
    let ghost group_pass = |o: CaseOutcome| o.scope == Scope::Group && passes(o);
    let ghost group_fail = |o: CaseOutcome| o.scope == Scope::Group && !passes(o);
    let mut passed: usize = 0;
    let mut line = ScopeRegressionSummary { total: 0, passed: 0, failed: 0 };
    let mut group = ScopeRegressionSummary { total: 0, passed: 0, failed: 0 };
    let mut failed: Vec<RegressionFailure> = Vec::new();
    let mut i: usize = 0;
    while i < outcomes.len()
        invariant
            s == outcomes@,
            i <= outcomes.len(),
            pass_p == (|o: CaseOutcome| passes(o)),
            fail_p == (|o: CaseOutcome| !passes(o)),
            line_p == (|o: CaseOutcome| o.scope == Scope::Line),
            line_pass == (|o: CaseOutcome| o.scope == Scope::Line && passes(o)),
            line_fail == (|o: CaseOutcome| o.scope == Scope::Line && !passes(o)),
            group_p == (|o: CaseOutcome| o.scope == Scope::Group),
            group_pass == (|o: CaseOutcome| o.scope == Scope::Group && passes(o)),
            group_fail == (|o: CaseOutcome| o.scope == Scope::Group && !passes(o)),
            passed == count_outcomes(s.take(i as int), pass_p),
            line.total == count_outcomes(s.take(i as int), line_p),
            line.passed == count_outcomes(s.take(i as int), line_pass),
            line.failed == count_outcomes(s.take(i as int), line_fail),
            group.total == count_outcomes(s.take(i as int), group_p),
            group.passed == count_outcomes(s.take(i as int), group_pass),
            group.failed == count_outcomes(s.take(i as int), group_fail),
            failed@.len() == s.take(i as int).filter(fail_p).len(),
            forall|k: int| 0 <= k < failed@.len() ==> failure_of(#[trigger] failed@[k], s.take(i as int).filter(fail_p)[k]),
        decreases outcomes.len() - i,
    {
        let o = &outcomes[i];
        proof {
            lemma_count_step(s, i as int, pass_p);
            lemma_count_step(s, i as int, line_p);
            lemma_count_step(s, i as int, line_pass);
            lemma_count_step(s, i as int, line_fail);
            lemma_count_step(s, i as int, group_p);
            lemma_count_step(s, i as int, group_pass);
            lemma_count_step(s, i as int, group_fail);
            s.take(i as int).lemma_filter_push(s[i as int], fail_p);
            assert(s.take(i + 1) =~= s.take(i as int).push(s[i as int]));
        }
        let ok = same_kinds(o.expected.as_slice(), o.actual.as_slice());
        let is_line = match o.scope {
            Scope::Line => true,
            Scope::Group => false,
        };
        if ok {
            passed += 1;
        }
        if is_line {
            line.total += 1;
            if ok {
                line.passed += 1;
            } else {
                line.failed += 1;
            }
        } else {
            group.total += 1;
            if ok {
                group.passed += 1;
            } else {
                group.failed += 1;
            }
        }
        if !ok {
            let f = RegressionFailure {
                case_name: o.case_name.clone(),
                scope: o.scope,
                subject_id: o.subject_id.clone(),
                expected: copy_kinds(o.expected.as_slice()),
                actual: copy_kinds(o.actual.as_slice()),
                missing: missing_events(o.expected.as_slice(), o.actual.as_slice()),
                unexpected: unexpected_events(o.expected.as_slice(), o.actual.as_slice()),
            };
            failed.push(f);
        }
        i += 1;
    }
    proof {
        assert(s.take(outcomes.len() as int) =~= s);
    }
    RegressionReport {
        total: outcomes.len(),
        passed,
        line_level_top3: line,
        group_level_top3: group,
        failed,
    }
}

/// Outcomes counted by `p` and by its negation add up to all outcomes.
pub proof fn lemma_count_split(s: Seq<CaseOutcome>, p: spec_fn(CaseOutcome) -> bool, q: spec_fn(CaseOutcome) -> bool)
    requires
        forall|o: CaseOutcome| #[trigger] q(o) == !p(o),
    ensures
        count_outcomes(s, p) + count_outcomes(s, q) == s.len(),
    decreases s.len(),
{
    if s.len() > 0 {
        lemma_count_split(s.drop_last(), p, q);
    }
}

/// Counting with a predicate that implies another never gives more.
proof fn lemma_count_both(s: Seq<CaseOutcome>, p: spec_fn(CaseOutcome) -> bool, q: spec_fn(CaseOutcome) -> bool, r: spec_fn(CaseOutcome) -> bool)
    requires
        forall|o: CaseOutcome| #[trigger] r(o) == (p(o) || q(o)),
        forall|o: CaseOutcome| !(#[trigger] p(o) && q(o)),
    ensures
        count_outcomes(s, p) + count_outcomes(s, q) == count_outcomes(s, r),
    decreases s.len(),
{
    if s.len() > 0 {
        lemma_count_both(s.drop_last(), p, q, r);
    }
}

/// A report's tallies are consistent: every case is a line or a group case, every case of a
/// scope either passed or failed, the overall passes are the sum of the scope passes, and the
/// failure list has one entry per failing case.
pub proof fn lemma_report_consistent(outcomes: Seq<CaseOutcome>)
    ensures
        scope_tally(outcomes, Scope::Line).0 + scope_tally(outcomes, Scope::Group).0 == outcomes.len(),
        scope_tally(outcomes, Scope::Line).1 + scope_tally(outcomes, Scope::Line).2 == scope_tally(outcomes, Scope::Line).0,
        scope_tally(outcomes, Scope::Group).1 + scope_tally(outcomes, Scope::Group).2 == scope_tally(outcomes, Scope::Group).0,
        scope_tally(outcomes, Scope::Line).1 + scope_tally(outcomes, Scope::Group).1 == count_outcomes(outcomes, |o: CaseOutcome| passes(o)),
        count_outcomes(outcomes, |o: CaseOutcome| passes(o)) + failing(outcomes).len() == outcomes.len(),
{
    let line_p = |o: CaseOutcome| o.scope == Scope::Line;
    let group_p = |o: CaseOutcome| o.scope == Scope::Group;
    lemma_count_split(outcomes, line_p, group_p);
    let lp = |o: CaseOutcome| o.scope == Scope::Line && passes(o);
    let lf = |o: CaseOutcome| o.scope == Scope::Line && !passes(o);
    lemma_count_both(outcomes, lp, lf, line_p);
    let gp = |o: CaseOutcome| o.scope == Scope::Group && passes(o);
    let gf = |o: CaseOutcome| o.scope == Scope::Group && !passes(o);
    lemma_count_both(outcomes, gp, gf, group_p);
    let pass_p = |o: CaseOutcome| passes(o);
    lemma_count_both(outcomes, lp, gp, pass_p);
    let fail_p = |o: CaseOutcome| !passes(o);
    lemma_count_split(outcomes, pass_p, fail_p);
    lemma_count_is_filter(outcomes, fail_p);
}

proof fn lemma_count_is_filter(s: Seq<CaseOutcome>, p: spec_fn(CaseOutcome) -> bool)
    ensures
        count_outcomes(s, p) == s.filter(p).len(),
    decreases s.len(),
{
    if s.len() > 0 {
        lemma_count_is_filter(s.drop_last(), p);
        s.drop_last().lemma_filter_push(s.last(), p);
        assert(s.drop_last().push(s.last()) =~= s);
    }
}

} // verus!
