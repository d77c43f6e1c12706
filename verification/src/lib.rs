//! `mikiwame` (見極め): explainable materials structure diagnostics.
//!
//! Given a 3D periodic crystal structure, `mikiwame` explains what is
//! structurally unusual about it, where, and on what evidence, instead of a
//! single opaque score. This crate holds the decision logic of the
//! diagnostics (which findings fire, at what severity, which components run,
//! what the verdict is), the coincidence grouping of sites under periodic
//! boundary conditions, the covalent radius table and the coordination
//! decisions built on it, the command-line argument handling and the
//! Markdown summary, each with a machine-checked contract. Laws that span
//! calls are stated as proof functions, among them that the verdict depends
//! only on the severities present and that neither the findings of each
//! code and severity nor the verdict of a whole report depend on site order
//! ([`site_order`]).
//!
//! Geometry on floating-point coordinates (cell volume, minimum-image
//! distances, neighbor search, shell gaps) is measured by the caller, who
//! hands the results to this crate as plain facts (see
//! [`diagnostics::input_quality`] and [`structure_view::Proximity`]).

pub mod assessment;
pub mod cli;
pub mod config;
pub mod diagnostics;
pub mod element;
pub mod finding;
pub mod markdown;
pub mod model;
pub mod provenance;
pub mod radii;
pub mod site_order;
pub mod report;
pub mod structure_view;
pub mod text;

pub use config::AnalysisConfig;
pub use finding::{Diagnosis, EvidenceSource, FindingCode, FindingScope};
pub use provenance::Provenance;
pub use report::{
    ApplicabilityAssessment, ComponentAssessment, ComponentName, ComponentStatus, InputSummary,
    NeighborSpeciesCount, SCHEMA_VERSION, Suggestion,
};
pub use model::{ApplicabilityLevel, MetricCode, Severity, Unit, Verdict};
