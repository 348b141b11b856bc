//! Memory-bounded set operations over newline-delimited byte files.
//!
//! Lines are partitioned into buckets by a content checksum, and each bucket
//! is then combined on its own: either the lines of a second file that are
//! missing from a first one, or the distinct lines of several files.

pub mod lines;
pub mod bucket;
pub mod sets;
pub mod added;
pub mod unique;
pub mod run;
