use vstd::prelude::*;

verus! {

/// How readily the segmentation cuts a series into regimes.
#[derive(Clone, Copy, Debug, PartialEq, Eq, Structural)]
pub enum SensitivityProfile {
    Conservative,
    Balanced,
    Aggressive,
}

/// The few high-level knobs of an analysis.
#[derive(Clone, Copy, Debug, PartialEq, Eq, Structural)]
pub struct CompilerPolicy {
    pub sensitivity: SensitivityProfile,
    pub max_paa_segments: usize,
    pub enable_peer_context: bool,
}

/// Sensitivity used when a policy does not name one.
pub fn default_sensitivity() -> (s: SensitivityProfile)
    ensures
        s == SensitivityProfile::Balanced,
{
    SensitivityProfile::Balanced
}

/// Number of PAA segments used when a policy does not name one.
pub fn default_max_paa_segments() -> (n: usize)
    ensures
        n == 4,
{
    4
}

/// Whether peer context is attached when a policy does not say.
pub fn default_enable_peer_context() -> (b: bool)
    ensures
        b,
{
    true
}

impl Default for CompilerPolicy {
    /// Balanced sensitivity, four PAA segments, peer context on.
    fn default() -> (p: Self)
        ensures
            p.sensitivity == SensitivityProfile::Balanced,
            p.max_paa_segments == 4,
            p.enable_peer_context,
    {
        CompilerPolicy {
            sensitivity: default_sensitivity(),
            max_paa_segments: default_max_paa_segments(),
            enable_peer_context: default_enable_peer_context(),
        }
    }
}

/// The policy in effect for a request: its own when it carries one, the default otherwise.
pub fn effective_policy(requested: Option<CompilerPolicy>, default_policy: CompilerPolicy) -> (p: CompilerPolicy)
    ensures
        p == match requested {
            Some(q) => q,
            None => default_policy,
        },
{
    match requested {
        Some(q) => q,
        None => default_policy,
    }
}

} // verus!
