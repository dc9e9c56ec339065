use vstd::prelude::*;

verus! {

/// Version tag carried by every analysis and projection.
pub const SCHEMA_VERSION: &'static str = "v1";

/// Whether an analysis covers one series or a group of series.
#[derive(Clone, Copy, Debug, PartialEq, Eq, Structural)]
pub enum Scope {
    Line,
    Group,
}

impl Scope {
    pub open spec fn label(self) -> Seq<char> {
        match self {
            Scope::Line => "line"@,
            Scope::Group => "group"@,
        }
    }

    /// Stable wire name of the scope.
    pub fn as_str(self) -> (s: &'static str)
        ensures
            s@ == self.label(),
    {
        match self {
            Scope::Line => "line",
            Scope::Group => "group",
        }
    }
}

/// Overall state of a subject over its window.
#[derive(Clone, Copy, Debug, PartialEq, Eq, Structural)]
pub enum StateKind {
    Stable,
    Elevated,
    Depressed,
    Volatile,
}

impl StateKind {
    pub open spec fn label(self) -> Seq<char> {
        match self {
            StateKind::Stable => "stable"@,
            StateKind::Elevated => "elevated"@,
            StateKind::Depressed => "depressed"@,
            StateKind::Volatile => "volatile"@,
        }
    }

    /// Stable wire name of the state.
    pub fn as_str(self) -> (s: &'static str)
        ensures
            s@ == self.label(),
    {
        match self {
            StateKind::Stable => "stable",
            StateKind::Elevated => "elevated",
            StateKind::Depressed => "depressed",
            StateKind::Volatile => "volatile",
        }
    }
}

/// Series-level trend summary.
#[derive(Clone, Copy, Debug, PartialEq, Eq, Structural)]
pub enum TrendKind {
    Increasing,
    Decreasing,
    Flat,
    UpThenFlat,
    DownThenFlat,
}

impl TrendKind {
    pub open spec fn label(self) -> Seq<char> {
        match self {
            TrendKind::Increasing => "increasing"@,
            TrendKind::Decreasing => "decreasing"@,
            TrendKind::Flat => "flat"@,
            TrendKind::UpThenFlat => "up_then_flat"@,
            TrendKind::DownThenFlat => "down_then_flat"@,
        }
    }

    /// Stable wire name of the trend.
    pub fn as_str(self) -> (s: &'static str)
        ensures
            s@ == self.label(),
    {
        match self {
            TrendKind::Increasing => "increasing",
            TrendKind::Decreasing => "decreasing",
            TrendKind::Flat => "flat",
            TrendKind::UpThenFlat => "up_then_flat",
            TrendKind::DownThenFlat => "down_then_flat",
        }
    }
}

/// The kinds of semantic events the kernel reports.
#[derive(Clone, Copy, Debug, PartialEq, Eq, Hash, PartialOrd, Ord, Structural)]
pub enum EventKind {
    SustainedHigh,
    SustainedLow,
    Spike,
    Drop,
    RegimeShift,
    Oscillation,
    IncreasingTrend,
    DecreasingTrend,
    PeerImbalance,
}

impl EventKind {
    pub open spec fn label(self) -> Seq<char> {
        match self {
            EventKind::SustainedHigh => "sustained_high"@,
            EventKind::SustainedLow => "sustained_low"@,
            EventKind::Spike => "spike"@,
            EventKind::Drop => "drop"@,
            EventKind::RegimeShift => "regime_shift"@,
            EventKind::Oscillation => "oscillation"@,
            EventKind::IncreasingTrend => "increasing_trend"@,
            EventKind::DecreasingTrend => "decreasing_trend"@,
            EventKind::PeerImbalance => "peer_imbalance"@,
        }
    }

    /// Tie-break rank of a kind: lower ranks sort first among equal scores.
    pub open spec fn rank(self) -> nat {
        match self {
            EventKind::SustainedHigh => 0,
            EventKind::SustainedLow => 1,
            EventKind::Spike => 2,
            EventKind::Drop => 3,
            EventKind::RegimeShift => 4,
            EventKind::Oscillation => 5,
            EventKind::IncreasingTrend => 6,
            EventKind::DecreasingTrend => 7,
            EventKind::PeerImbalance => 8,
        }
    }

    /// Stable wire name of the kind.
    pub fn as_str(self) -> (s: &'static str)
        ensures
            s@ == self.label(),
    {
        match self {
            EventKind::SustainedHigh => "sustained_high",
            EventKind::SustainedLow => "sustained_low",
            EventKind::Spike => "spike",
            EventKind::Drop => "drop",
            EventKind::RegimeShift => "regime_shift",
            EventKind::Oscillation => "oscillation",
            EventKind::IncreasingTrend => "increasing_trend",
            EventKind::DecreasingTrend => "decreasing_trend",
            EventKind::PeerImbalance => "peer_imbalance",
        }
    }

    /// Tie-break priority of the kind.
    pub fn priority(self) -> (p: usize)
        ensures
            p == self.rank(),
    {
        match self {
            EventKind::SustainedHigh => 0,
            EventKind::SustainedLow => 1,
            EventKind::Spike => 2,
            EventKind::Drop => 3,
            EventKind::RegimeShift => 4,
            EventKind::Oscillation => 5,
            EventKind::IncreasingTrend => 6,
            EventKind::DecreasingTrend => 7,
            EventKind::PeerImbalance => 8,
        }
    }

    /// Equality of kinds, usable in verified code.
    pub fn same(self, other: EventKind) -> (b: bool)
        ensures
            b == (self == other),
    {
        self.priority() == other.priority()
    }
}

/// Two distinct kinds never share a priority, so priority is a total tie-breaker.
pub proof fn lemma_priority_injective(a: EventKind, b: EventKind)
    ensures
        a.rank() == b.rank() ==> a == b,
{
}

/// Two distinct kinds never share a wire name.
pub proof fn lemma_event_label_injective(a: EventKind, b: EventKind)
    ensures
        a.label() == b.label() ==> a == b,
{
    reveal_strlit("sustained_high");
    reveal_strlit("sustained_low");
    reveal_strlit("spike");
    reveal_strlit("drop");
    reveal_strlit("regime_shift");
    reveal_strlit("oscillation");
    reveal_strlit("increasing_trend");
    reveal_strlit("decreasing_trend");
    reveal_strlit("peer_imbalance");
    if a != b && a.label() == b.label() {
        assert(a.label().len() == b.label().len());
        assert(a.label()[0] == b.label()[0]);
        assert(a.label()[a.label().len() - 1] == b.label()[b.label().len() - 1]);
    }
}

/// A labelled piece of evidence supporting an event.
#[derive(Clone, Debug, PartialEq)]
pub struct EvidenceItem {
    pub label: String,
    pub value: String,
}

impl EvidenceItem {
    /// A copy with the same label and value.
    pub fn duplicate(&self) -> (r: EvidenceItem)
        ensures
            r == *self,
    {
        EvidenceItem { label: self.label.clone(), value: self.value.clone() }
    }
}

/// Position of a subject among its peers.
#[derive(Clone, Copy, Debug, PartialEq, Eq, Structural)]
pub struct PeerContext {
    pub rank: usize,
    pub total: usize,
    pub percentile: usize,
}

/// The single-description projection handed to language models.
#[derive(Clone, Debug, PartialEq)]
pub struct LlmOutput {
    pub schema_version: &'static str,
    pub metric_id: String,
    pub scope: Scope,
    pub subject_id: String,
    pub description: String,
}

/// What one character becomes inside a JSON string literal.
pub open spec fn escape_char(c: char) -> Seq<char> {
    if c == '\\' {
        "\\\\"@
    } else if c == '"' {
        "\\\""@
    } else if c == '\n' {
        "\\n"@
    } else if c == '\r' {
        "\\r"@
    } else if c == '\t' {
        "\\t"@
    } else {
        seq![c]
    }
}

/// JSON string escaping of a whole text, character by character.
pub open spec fn escape_text(s: Seq<char>) -> Seq<char>
    decreases s.len(),
{
    if s.len() == 0 {
        Seq::empty()
    } else {
        escape_text(s.drop_last()) + escape_char(s.last())
    }
}

/// The character an escape sequence `\\c` stands for.
pub open spec fn unescaped(c: char) -> char {
    if c == 'n' {
        '\n'
    } else if c == 'r' {
        '\r'
    } else if c == 't' {
        '\t'
    } else {
        c
    }
}

/// Reads a JSON string body back: a backslash and the next character stand for one character,
/// every other character for itself.
pub open spec fn unescape_text(t: Seq<char>) -> Seq<char>
    decreases t.len(),
{
    if t.len() == 0 {
        Seq::empty()
    } else if t[0] == '\\' && t.len() >= 2 {
        seq![unescaped(t[1])] + unescape_text(t.subrange(2, t.len() as int))
    } else {
        seq![t[0]] + unescape_text(t.drop_first())
    }
}

proof fn lemma_escape_concat(a: Seq<char>, b: Seq<char>)
    ensures
        escape_text(a + b) == escape_text(a) + escape_text(b),
    decreases b.len(),
{
    if b.len() == 0 {
        assert(a + b =~= a);
        assert(escape_text(a) + escape_text(b) =~= escape_text(a));
    } else {
        lemma_escape_concat(a, b.drop_last());
        assert((a + b).drop_last() =~= a + b.drop_last());
        assert((a + b).last() == b.last());
        assert(escape_text(a) + escape_text(b.drop_last()) + escape_char(b.last())
            =~= escape_text(a) + (escape_text(b.drop_last()) + escape_char(b.last())));
    }
}

proof fn lemma_unescape_char(c: char, rest: Seq<char>)
    ensures
        unescape_text(escape_char(c) + rest) == seq![c] + unescape_text(rest),
{
    reveal_strlit("\\\\");
    reveal_strlit("\\\"");
    reveal_strlit("\\n");
    reveal_strlit("\\r");
    reveal_strlit("\\t");
    let t = escape_char(c) + rest;
    if c == '\\' || c == '"' || c == '\n' || c == '\r' || c == '\t' {
        assert(escape_char(c).len() == 2);
        assert(t[0] == '\\');
        assert(unescaped(t[1]) == c);
        assert(t.subrange(2, t.len() as int) =~= rest);
    } else {
        assert(escape_char(c) == seq![c]);
        assert(t[0] == c);
        assert(t.drop_first() =~= rest);
    }
}

/// Escaping loses nothing: reading an escaped text back gives the original text.
pub proof fn lemma_escape_round_trip(s: Seq<char>)
    ensures
        unescape_text(escape_text(s)) == s,
    decreases s.len(),
{
    if s.len() == 0 {
        assert(escape_text(s) =~= Seq::<char>::empty());
    } else {
        let rest = s.drop_first();
        lemma_escape_round_trip(rest);
        lemma_escape_concat(seq![s[0]], rest);
        assert(seq![s[0]] + rest =~= s);
        assert(seq![s[0]].drop_last() =~= Seq::<char>::empty());
        assert(escape_text(Seq::<char>::empty()) =~= Seq::<char>::empty());
        assert(escape_text(seq![s[0]]) =~= escape_char(s[0]));
        lemma_unescape_char(s[0], escape_text(rest));
        assert(seq![s[0]] + rest =~= s);
    }
}

/// Escapes backslash, quote, newline, carriage return and tab for a JSON string.
pub fn escape_json(value: &str) -> (r: String)
    ensures
        r@ == escape_text(value@),
{
    let n = value.unicode_len();
    let mut out = String::new();
    let mut i: usize = 0;
    while i < n
        invariant
            n == value@.len(),
            i <= n,
            out@ == escape_text(value@.take(i as int)),
        decreases n - i,
    {
        let c = value.get_char(i);
        let ghost before = out@;
        if c == '\\' {
            out.append("\\\\");
        } else if c == '"' {
            out.append("\\\"");
        } else if c == '\n' {
            out.append("\\n");
        } else if c == '\r' {
            out.append("\\r");
        } else if c == '\t' {
            out.append("\\t");
        } else {
            let piece = value.substring_char(i, i + 1);
            assert(piece@ =~= seq![c]);
            out.append(piece);
        }
        assert(value@.take(i + 1).drop_last() =~= value@.take(i as int));
        assert(value@.take(i + 1).last() == c);
        i += 1;
    }
    assert(value@.take(n as int) =~= value@);
    out
}

impl LlmOutput {
    /// The compact JSON object that `to_json_string` renders.
    pub open spec fn json_text(self) -> Seq<char> {
        "{\"schema_version\":\""@ + escape_text(self.schema_version@) + "\",\"metric_id\":\""@
            + escape_text(self.metric_id@) + "\",\"scope\":\""@ + escape_text(self.scope.label())
            + "\",\"subject_id\":\""@ + escape_text(self.subject_id@) + "\",\"description\":\""@
            + escape_text(self.description@) + "\"}"@
    }

    /// Renders the projection as one compact JSON object with escaped string fields.
    pub fn to_json_string(&self) -> (r: String)
        ensures
            r@ == self.json_text(),
    {
        let mut out = String::new();
        out.append("{\"schema_version\":\"");
        out.append(escape_json(self.schema_version).as_str());
        out.append("\",\"metric_id\":\"");
        out.append(escape_json(self.metric_id.as_str()).as_str());
        out.append("\",\"scope\":\"");
        out.append(escape_json(self.scope.as_str()).as_str());
        out.append("\",\"subject_id\":\"");
        out.append(escape_json(self.subject_id.as_str()).as_str());
        out.append("\",\"description\":\"");
        out.append(escape_json(self.description.as_str()).as_str());
        out.append("\"}");
        assert(out@ =~= self.json_text());
        out
    }
}

} // verus!
