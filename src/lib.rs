//! File-integrity scanning: line-range exclusion rules, content fingerprints
//! and the comparison of a fresh scan against a stored baseline.

pub mod range_set;
pub mod text;
pub mod error;
pub mod file_exclude;
pub mod data;
pub mod file_utils;
pub mod report;
pub mod config;
