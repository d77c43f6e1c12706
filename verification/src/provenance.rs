//! Provenance: what produced a report, and with what reference data.

use vstd::prelude::*;
use vstd::string::*;

verus! {

/// The version of this crate, recorded in every report.
pub const CRATE_VERSION: &'static str = "0.4.0";

/// Records what produced a report and which versioned reference data (if
/// any) it used, so results are reproducible and auditable.
#[derive(Debug, Clone, PartialEq, Eq)]
#[non_exhaustive]
pub struct Provenance {
    /// The crate version that produced the report.
    pub mikiwame_version: String,
    /// Whether the analysis was fully deterministic (always: no randomness
    /// is used).
    pub deterministic: bool,
    /// Version of the elemental-radius table used, if a check that consumed
    /// it ran.
    pub radius_table_version: Option<String>,
    /// Version of the formal oxidation-state table used; not implemented,
    /// so always `None`.
    pub oxidation_table_version: Option<String>,
    /// Name of the coordination-environment method used, if coordination
    /// checks ran.
    pub coordination_method: Option<String>,
}

impl Provenance {
    /// Builds provenance for the current crate version. `radius_table_version`
    /// and `coordination_method` should be `Some` exactly when a check that
    /// consumed that reference data actually ran.
    pub fn current(radius_table_version: Option<String>, coordination_method: Option<String>) -> (p:
        Self)
        ensures
            p.mikiwame_version@ == CRATE_VERSION@,
            p.deterministic,
            p.radius_table_version == radius_table_version,
            p.oxidation_table_version is None,
            p.coordination_method == coordination_method,
    {
        Provenance {
            mikiwame_version: String::from_str(CRATE_VERSION),
            deterministic: true,
            radius_table_version,
            oxidation_table_version: None,
            coordination_method,
        }
    }
}

} // verus!
