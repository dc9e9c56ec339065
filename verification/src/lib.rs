//! Semantic kernel for time-series analysis: the verified core of normalisation, segmentation
//! bounds, run and flip detection, event ranking, regression tallies and the language-model
//! projection.

pub mod clock;
pub mod events;
pub mod features;
pub mod normalize;
pub mod payload;
pub mod policy;
pub mod regression;
pub mod schema;
pub mod segment;
pub mod signals;
pub mod sorting;
pub mod text;

pub use clock::parse_rfc3339;
pub use events::{
    collect_analysis_evidence, dedup_events, derive_state, peer_contexts, rank_group_events,
    rank_line_events, sort_events, Event, RankedEvents,
};
pub use features::format_duration;
pub use normalize::{looks_like_unix_timestamp, normalize_layout, NormalizedLayout, PointStamp};
pub use payload::{format_offset, project_output, CanonicalAnalysis};
pub use policy::{CompilerPolicy, SensitivityProfile};
pub use regression::{
    missing_events, render_kinds, tally_outcomes, unexpected_events, CaseOutcome,
    RegressionFailure, RegressionReport, ScopeRegressionSummary,
};
pub use schema::{
    EventKind, EvidenceItem, LlmOutput, PeerContext, Scope, StateKind, TrendKind, SCHEMA_VERSION,
};
