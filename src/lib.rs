//! Line attribution ("blame") for an editable text buffer.
//!
//! The crate decodes the incremental attribution stream of `git blame`,
//! turns attribution facts into hunks of buffer rows, and keeps those hunks
//! in an aggregation tree whose per-subtree bounds allow pruned range queries.
pub mod error;
pub mod time;
pub mod scan;
pub mod incremental;
pub mod position;
pub mod hunk;
pub mod tree;
pub mod blame;
pub mod properties;
