//! The float-free parts of the report contract.

use vstd::prelude::*;

use crate::finding::FindingCode;
use crate::model::ApplicabilityLevel;

verus! {

/// The current report schema version. Bumped only on a breaking change to
/// the report's shape or the meaning of an existing field.
///
/// `2`: added per-site local environments.
/// `3`: added per-neighbor detail to each local environment.
pub const SCHEMA_VERSION: u32 = 3;

/// A basic summary of the structure that was analyzed.
#[derive(Debug, Clone, PartialEq, Eq)]
#[non_exhaustive]
pub struct InputSummary {
    /// Number of sites in the structure.
    pub site_count: usize,
    /// Number of distinct element symbols across all sites.
    pub distinct_element_count: usize,
}

/// How applicable the checks were to this structure.
#[derive(Debug, Clone, PartialEq, Eq)]
#[non_exhaustive]
pub struct ApplicabilityAssessment {
    /// The applicability bucket.
    pub level: ApplicabilityLevel,
    /// Human-readable reasons for `level`.
    pub reasons: Vec<String>,
}

/// Identifies a diagnostic component (a self-contained group of checks).
#[derive(Debug, Clone, Copy, PartialEq, Eq, Structural)]
#[non_exhaustive]
pub enum ComponentName {
    /// Structural/numerical input validity checks.
    InputQuality,
    /// Site separation / duplicate-site checks.
    SiteSeparation,
    /// Occupancy and disorder checks.
    Disorder,
    /// Coordination number / local environment checks.
    Coordination,
}

/// Whether a diagnostic component ran.
#[derive(Debug, Clone, PartialEq, Eq)]
#[non_exhaustive]
pub enum ComponentStatus {
    /// The component ran to completion.
    Ran,
    /// The component did not run.
    Skipped {
        /// Why it was skipped.
        reason: String,
    },
}

/// Whether a diagnostic component ran, and on what.
#[derive(Debug, Clone, PartialEq, Eq)]
#[non_exhaustive]
pub struct ComponentAssessment {
    /// Which component this is.
    pub name: ComponentName,
    /// Whether it ran.
    pub status: ComponentStatus,
}

/// One neighbor species and how many times it appears in a site's resolved
/// coordination shell.
#[derive(Debug, Clone, PartialEq, Eq)]
#[non_exhaustive]
pub struct NeighborSpeciesCount {
    /// Element symbol, e.g. `"Cl"`.
    pub element: String,
    /// How many neighbors of this element are in the shell.
    pub count: usize,
}

/// A human-readable, non-binding suggestion tied to one or more findings.
#[derive(Debug, Clone, PartialEq, Eq)]
#[non_exhaustive]
pub struct Suggestion {
    /// The suggestion text.
    pub message: String,
    /// The findings this suggestion responds to.
    pub related_findings: Vec<FindingCode>,
}

} // verus!
