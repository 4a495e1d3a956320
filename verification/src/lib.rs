//! Comparison of two directory trees and disk-usage analysis of one tree.
//!
//! The crate holds the algorithmic core of both engines: relative-path set
//! algebra, collapsing of redundant sub-entries, content fingerprinting,
//! bottom-up size aggregation, cooperative cancellation and throttled
//! progress reporting.  Filesystem traversal itself is left to the caller,
//! which hands the library the observed entries as plain values.

pub mod compare;
pub mod debounce;
pub mod disk_space;
pub mod fs_entry;
pub mod hashing;
pub mod paths;
