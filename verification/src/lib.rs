//! Streaming descriptive statistics over a sequence of numeric observations.
//!
//! Observations are fixed-point numbers held in `i64` "units" (thousandths).
//! The library keeps constant-memory state for count, minimum, maximum,
//! exact mean and population variance (as exact rationals over integer
//! sums), and three P² quantile estimates (first quartile, median, third
//! quartile).

pub mod extrema;
pub mod meanvar;
pub mod model;
pub mod parse;
pub mod quantile;
pub mod stats;

use vstd::prelude::*;

verus! {

/// Largest magnitude, in units, of an accepted observation.
pub const MAX_ABS: i64 = 1_000_000_000;

/// Largest number of observations a run may fold in.
pub const MAX_COUNT: u64 = 10_000_000_000;

} // verus!
