//! Aggregation of authorship metadata over a resolved dependency set.
//!
//! The crate turns a flat list of packages, each with its free-text author
//! strings, into a mapping from author to packages (or, inverted, from
//! package to authors), optionally replacing authors, e-mail addresses or
//! package names by a one-way digest.

pub mod aggregate;
pub mod author;
pub mod digest;
pub mod order;
pub mod mapping;
pub mod present;
pub mod relation;
pub mod text_set;
