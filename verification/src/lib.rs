//! Single-pass min/average/max aggregation over newline-delimited
//! `key;value` text records.
//!
//! The input is a byte buffer of lines, each `KEY;VALUE`.  A line whose key
//! is not valid UTF-8, whose value is not a plain decimal literal, or which
//! has no `;` at all is malformed and contributes nothing.  Values are held
//! as fixed-point numbers in tenths (matching the one-decimal output
//! format); non-finite or oversized literals are rejected as malformed, so
//! every retained reading is exact and per-key sums never lose precision.
//!
//! Per-key state is a [`stats::Stats`]: minimum, maximum, exact sum and
//! count.  Buffers can be aggregated independently and the resulting maps
//! combined with [`aggregate::AggregateMap::merge_from`]; the combination is
//! associative and commutative, so any partitioning of the input and any
//! merge order yields the same final map.

pub mod aggregate;
pub mod laws;
pub mod order;
pub mod parse;
pub mod partition;
pub mod pipeline;
pub mod render;
pub mod stats;
