//! Incremental two-root directory reconciliation.
//!
//! The library computes, for two directory trees whose states are recorded in
//! path-sorted snapshots, which files are missing, changed, stale in time or
//! permissions, or deleted, and proposes one action per difference. The
//! scanning merge, the cross-root differencing and the directory-compression
//! heuristic are verified; directory walking, file reading and the
//! interactive apply loop live outside the library.

pub mod compress;
pub mod differ;
pub mod digest;
pub mod entry;
mod localtime;
pub mod num;
pub mod paths;
pub mod scanner;
