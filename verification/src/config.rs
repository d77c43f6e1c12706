//! Analysis configuration.

use vstd::prelude::*;

verus! {

/// Configuration for an analysis run.
///
/// Empty for now: no diagnostic component has a tunable threshold yet (every
/// check that ships needs none). `#[non_exhaustive]` keeps callers using
/// `AnalysisConfig::default()` working when fields are added.
#[derive(Debug, Clone, PartialEq, Eq)]
#[non_exhaustive]
pub struct AnalysisConfig {}

impl Default for AnalysisConfig {
    fn default() -> (c: Self)
        ensures
            c == (AnalysisConfig {}),
    {
        AnalysisConfig {}
    }
}

} // verus!
