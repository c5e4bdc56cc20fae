//! Normalization and structural-diff engine for debug information.
//!
//! The crate holds the format-independent model of a parsed binary (sections,
//! symbols, compilation units with functions, variables and types), the
//! normalization pass that reconciles the raw symbol table with the debug
//! units, the address-range aggregation used for coverage reporting, the
//! lookup indices built over a normalized file, and the cost-based sequence
//! alignment that underlies structural diffing.  Reading the bytes of a
//! binary, per-format parsing and text rendering live outside this crate.

pub mod diff;
pub mod file;
pub mod format;
pub mod model;
pub mod range;
