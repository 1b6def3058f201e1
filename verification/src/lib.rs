//! A masked byte-pattern search engine.
//!
//! A human-authored signature string (hex digits, wildcard nibbles, an
//! optional anchor marker) is compiled into an immutable [`query::Query`],
//! which can then be run over a caller-validated byte region to find every
//! occurrence, or the first few, each reported as the match's start address
//! shifted by the query's anchor.

pub mod query;
pub mod scan;
