//! Diagnostic components. Input quality runs first; when it finds a fatal
//! problem, the geometry-based components are skipped.

pub mod coordination;
pub mod disorder;
pub mod input_quality;
pub mod separation;
