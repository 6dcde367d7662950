//! A stake-weighted, multi-winner election engine.
//!
//! Voters ("nominators") back candidates with stake. The engine selects a
//! bounded winner set proportionally to that backing, assigns each voter's
//! stake across its elected candidates, and optionally post-processes the
//! assignment ("balancing") to flatten the distribution of support across
//! winners. Every stage is deterministic integer arithmetic, so independent
//! parties computing the result from the same inputs agree bit for bit.

use vstd::prelude::*;

pub mod types;
pub mod sums;
pub mod support;
pub mod score;
pub mod normalize;
pub mod balance;
pub mod solve;
pub mod laws;

verus! {

/// Parts-per-billion denominator of the fixed-point ratio type.
pub const BILLION: u32 = 1_000_000_000;

} // verus!
