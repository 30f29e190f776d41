//! Finds version-control working copies under a directory tree and reports
//! each one's status as one row of a comma-delimited file.
//!
//! The filesystem is modelled as a tree of named entries (`fs_tree`), so that
//! the walk itself is ordinary verified code: `locator` classifies each
//! directory as a repository root or not, collects the repositories found and
//! counts every entry it examines. `status` parses the raw output of the
//! per-repository status query into a structured record, and `report` renders
//! the records as a comma-delimited report with a fixed header row, proved to
//! survive a round trip through a standard CSV reader.

pub mod fs_tree;
pub mod locator;
pub mod report;
pub mod status;
pub mod text;
