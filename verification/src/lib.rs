//! `dsopt`: find and reclaim the disk space that build artifacts take.
//!
//! A scan walks a file system root and reports the directories whose names
//! belong to a known build artifact, `node_modules` or `target`. Artifacts
//! inside an artifact are folded into the outermost one, so that a single
//! removal reclaims the whole subtree.
//!
//! The library holds everything that is decided and computed. Reading the file
//! system, deleting, drawing and running commands is left to the caller, who
//! hands over what was read and takes back what to do. Paths are bytes.

pub mod app;
pub mod cache;
pub mod calendar;
pub mod candidate;
pub mod cli;
pub mod listing;
pub mod path;
pub mod pathset;
pub mod removal;
pub mod safety;
pub mod scan;
pub mod screen;
pub mod session;
pub mod size;
pub mod text;
pub mod tree;
pub mod update;

pub use cache::{cache_path, record_scan, ScanCache};
pub use calendar::format_timestamp;
pub use candidate::{deduplicate_candidates, Candidate, CandidateKind, FileIdentity};
pub use safety::{is_safe_candidate, should_skip};
pub use scan::{scan, ProgressSnapshot, ScanResult, ScanState};
pub use size::format_size;
