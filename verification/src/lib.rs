//! Parallel boundary-safe line splitting and per-key aggregation.
//!
//! A large newline-delimited file is read in disjoint spans by several
//! workers.  Each span is scanned for complete lines; the partial lines at
//! span edges (fragments) are recorded per span and fused back together
//! once all spans are done, so that every line of the file is counted
//! exactly once.  Parsed rows are folded into an unbalanced, arena-indexed
//! binary search tree of per-key running statistics.

pub mod boundary;
pub mod keycmp;
pub mod parse;
pub mod scan;
pub mod split;
pub mod tally;
pub mod tree;
