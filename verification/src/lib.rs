//! Idempotent merging of comma-separated subnet-identifier lists.
//!
//! A node configuration stores the subnets it tracks as an optional
//! comma-separated string of identifiers. [`merge::merge`] inserts one
//! identifier into such a list: empty segments and duplicates are dropped and
//! the entries come back in ascending lexicographic order, so repeated runs
//! on the same logical input produce byte-identical output.

pub mod merge;
pub mod order;
pub mod segments;
