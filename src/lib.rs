//! Authorship concentration and change churn over a version-control history.
//!
//! The history itself (blame of each file, the commit walk with its diffs)
//! is gathered by the caller and handed in as plain records; everything
//! computed from those records lives here, with its contract.

pub mod paths;
pub mod filter;
pub mod counts;
pub mod rank;
pub mod tally;
pub mod bus_factor;
pub mod history;
pub mod churn;
pub mod commands;
