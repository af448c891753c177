//! Parallel chunked aggregation engine for `key;value` record files.
//!
//! The library computes, per distinct key, the count, minimum, maximum and
//! arithmetic mean of the observed values.  Values are held as exact
//! fixed-point integers (hundredths), so every sum is independent of the
//! order in which values are folded in, and any partition of the input into
//! line-aligned chunks merges to the same result.

pub mod aggregate;
pub mod chunk;
pub mod engine;
pub mod laws;
pub mod model;
pub mod order;
pub mod parse;
pub mod records;
pub mod render;
pub mod stats;
