//! A minimal line-oriented pattern-search library: a per-file line scanner
//! that yields the lines of a text satisfying (or, inverted, failing) a
//! compiled pattern, together with their 1-based line numbers.

pub mod lines;
pub mod matcher;
pub mod reader;
pub mod report;
pub mod scan;
pub mod types;
