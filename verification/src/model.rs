//! Shared value types used across findings and reports.

use vstd::prelude::*;

verus! {

/// The top-level, headline judgment of a diagnostic report.
///
/// None of these variants are a claim about thermodynamic stability or
/// synthesizability.
#[derive(Debug, Clone, Copy, PartialEq, Eq, Structural)]
pub enum Verdict {
    /// No structural anomaly was found by the checks that ran.
    StructurallyConsistent,
    /// At least one moderate-severity finding warrants a human look.
    ReviewRecommended,
    /// At least one high-severity structural anomaly was found.
    StrongAnomalyDetected,
    /// The structure falls outside the validated structural domain.
    OutOfDomain,
    /// The input could not be validated well enough to run diagnostics.
    InvalidInput,
}

/// How severe a single finding is, independent of how confident the finding
/// is.
#[derive(Debug, Clone, Copy, PartialEq, Eq, PartialOrd, Ord, Hash, Structural)]
#[non_exhaustive]
pub enum Severity {
    /// Worth surfacing but not indicative of a problem on its own.
    Info,
    /// A minor, likely benign deviation.
    Low,
    /// A deviation worth a closer look.
    Medium,
    /// A serious, likely-real structural problem.
    High,
    /// A structural or input problem severe enough to block further diagnosis.
    Critical,
}

/// The position of a severity in the order `Info < Low < Medium < High <
/// Critical`.
pub open spec fn severity_rank(s: Severity) -> nat {
    match s {
        Severity::Info => 0,
        Severity::Low => 1,
        Severity::Medium => 2,
        Severity::High => 3,
        Severity::Critical => 4,
    }
}

impl Severity {
    /// The position of this severity in the order `Info < Low < Medium <
    /// High < Critical` (the order the derived `Ord` follows).
    pub fn rank(self) -> (r: u8)
        ensures
            r as nat == severity_rank(self),
    {
        match self {
            Severity::Info => 0,
            Severity::Low => 1,
            Severity::Medium => 2,
            Severity::High => 3,
            Severity::Critical => 4,
        }
    }
}

/// How applicable the checks are to the structure that was analyzed.
#[derive(Debug, Clone, Copy, PartialEq, Eq, Structural)]
#[non_exhaustive]
pub enum ApplicabilityLevel {
    /// Squarely within the validated domain.
    FullyApplicable,
    /// Within domain but with a known accuracy caveat.
    PartiallyApplicable,
    /// Outside the validated domain; findings, if any, are exploratory only.
    LimitedApplicability,
    /// Could not be assessed for applicability at all (e.g. invalid input).
    NotApplicable,
}

/// Identifies which numeric quantity a piece of numeric evidence reports.
#[derive(Debug, Clone, Copy, PartialEq, Eq, Structural)]
#[non_exhaustive]
pub enum MetricCode {
    /// Unit cell volume, the scalar triple product of the lattice rows.
    CellVolume,
    /// A minimum-image (periodic) distance between two sites, in Angstrom.
    PeriodicDistance,
    /// A site's fractional occupancy.
    Occupancy,
}

/// A physical unit attached to a numeric evidence value.
#[derive(Debug, Clone, Copy, PartialEq, Eq, Structural)]
#[non_exhaustive]
pub enum Unit {
    /// Angstrom, used for lengths and distances.
    Angstrom,
    /// Cubic Angstrom, used for cell volume.
    CubicAngstrom,
    /// No physical unit (e.g. occupancy, a ratio).
    Dimensionless,
}

/// The printed symbol of a unit.
pub open spec fn unit_symbol(u: Unit) -> Seq<char> {
    match u {
        Unit::Angstrom => "\u{c5}"@,
        Unit::CubicAngstrom => "\u{c5}\u{b3}"@,
        Unit::Dimensionless => ""@,
    }
}

impl Unit {
    /// The printed symbol of this unit: `Å`, `Å³`, or nothing.
    pub fn symbol(self) -> (s: &'static str)
        ensures
            s@ == unit_symbol(self),
    {
        match self {
            Unit::Angstrom => "\u{c5}",
            Unit::CubicAngstrom => "\u{c5}\u{b3}",
            Unit::Dimensionless => "",
        }
    }
}

} // verus!
