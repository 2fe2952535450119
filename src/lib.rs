//! # ddh
//!
//! Duplicate-file detection: files are grouped by length, then told apart by
//! a hash of their leading block and, where that is not enough, by a hash of
//! their whole content. Records that agree on both hashes are merged into one
//! record holding every path.
//!
//! The library holds the decisions and the bookkeeping; reading directories
//! and files is left to the caller, which feeds the results in. The `run`
//! module states what a whole run yields and proves its laws.

pub mod fileinfo;
pub mod walk;
pub mod buckets;
pub mod hashing;
pub mod differentiate;
pub mod consolidate;
pub mod report;
pub mod run;
