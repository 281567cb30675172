//! Commit-history analysis: a single traversal of a repository's history
//! dispatches each commit to a set of independent analyzers, each keeping
//! its own accumulated state and producing its own report.
//!
//! This crate holds the verified core: the commit data model, the two
//! analyzers (per-author word/commit counting and authorship/commit
//! time-gap detection), and the driver logic that feeds commits to the
//! analyzers in order. Reading the commit graph from disk and rendering
//! tables are I/O concerns that live outside the library.

pub mod commit;
pub mod counter;
pub mod driver;
pub mod errors;
pub mod gaps;
pub mod words;
