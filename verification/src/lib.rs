//! Incremental content tracking for a tree of files: which files changed since
//! the last scan, and how two snapshots of a tree diverge.

pub mod compare;
pub mod diff_laws;
pub mod error;
pub mod local_files;
pub mod path;
pub mod persisted_state;
pub mod scan_model;
pub mod snapshot;
pub mod sorting;
pub mod time;
pub mod types;
