//! Network anomaly detection over sampled traffic statistics.
//!
//! A [`monitor::Monitor`] keeps rolling per-metric statistics ([`baseline`]) and flags readings
//! whose z-score against them exceeds a threshold ([`detector`]). The [`correlator`] measures how
//! two metric series move together. Readings are integers and scores are fixed-point, so every
//! result is exact.
use vstd::prelude::*;

pub mod baseline;
pub mod correlator;
pub mod detector;
pub mod isqrt;
pub mod monitor;
pub mod sampler;
pub mod stats;

verus! {

} // verus!
