//! Ranks the files and directories of a repository by technical-debt
//! hotspot severity: how often code changes against how maintainable it is.
//!
//! Metric values that are fractional (Halstead volume, cyclomatic complexity,
//! maintainability index, comment percentage, hotspot index) are held as
//! fixed-point integers in thousandths of a unit (see `types::SCALE`).
//! Paths are held as sequences of components.

pub mod types;
pub mod paths;
pub mod hotspot;
pub mod aggregate;
pub mod sorting;
pub mod formatting;
