//! Data model of the election engine: the fixed-point ratio, voters,
//! assignments in ratio and staked form, supports, scores, configuration,
//! results and errors.

use vstd::prelude::*;
use crate::BILLION;

verus! {

/// A ratio in `[0, 1]` represented as integer parts per billion, so that all
/// ratio arithmetic is exact integer arithmetic and results are bit-identical
/// across independent executions.
#[derive(Clone, Copy, PartialEq, Eq, Structural, Debug)]
pub struct PerBill {
    pub parts: u32,
}

impl PerBill {
    /// A well-formed ratio never exceeds one, i.e. `BILLION` parts.
    pub open spec fn is_valid(self) -> bool {
        self.parts <= BILLION
    }

    pub fn from_parts(parts: u32) -> (r: PerBill)
        requires
            parts <= BILLION,
        ensures
            r.parts == parts,
            r.is_valid(),
    {
        PerBill { parts }
    }

    pub fn zero() -> (r: PerBill)
        ensures
            r.parts == 0,
            r.is_valid(),
    {
        PerBill { parts: 0 }
    }

    pub fn one() -> (r: PerBill)
        ensures
            r.parts == BILLION,
            r.is_valid(),
    {
        PerBill { parts: BILLION }
    }
}

/// A voter: an identifier, a positive total stake, and the ordered list of
/// candidate identifiers it accepts (its "edges").
#[derive(Clone, Debug, PartialEq, Eq)]
pub struct Voter {
    pub who: u64,
    pub stake: u64,
    pub edges: Vec<u64>,
}

impl Voter {
    /// The data invariant of a voter: positive stake, at least one accepted
    /// candidate, and no duplicate among the accepted candidates.
    pub open spec fn is_valid(self) -> bool {
        &&& self.stake > 0
        &&& self.edges@.len() > 0
        &&& self.edges@.no_duplicates()
    }
}

/// A ratio-form assignment: one voter's division of its whole stake across
/// candidates, each edge carrying a fraction. A well-formed ratio assignment
/// has fractions summing to exactly one.
#[derive(Clone, Debug, PartialEq, Eq)]
pub struct Assignment {
    pub who: u64,
    pub distribution: Vec<(u64, PerBill)>,
}

/// A staked assignment: one voter's division of its stake across candidates
/// in absolute units; the weights of a normalized assignment sum to exactly
/// the voter's total stake.
#[derive(Clone, Debug, PartialEq, Eq)]
pub struct StakedAssignment {
    pub who: u64,
    pub distribution: Vec<(u64, u64)>,
}

/// Aggregate backing of one winner: its total support and the list of
/// contributing `(voter, weight)` entries, one per edge to this winner.
#[derive(Clone, Debug, PartialEq, Eq)]
pub struct Support {
    pub total: u128,
    pub voters: Vec<(u64, u64)>,
}

/// The quality of a solution, compared lexicographically: a higher minimal
/// support is better; on a tie a lower sum of squared supports is better; on
/// a further tie a higher sum of supports is better.
#[derive(Clone, Copy, PartialEq, Eq, Structural, Debug)]
pub struct Score {
    pub min_support: u128,
    pub sum_squares: u128,
    pub sum_support: u128,
}

/// Caller-supplied bounds for the balancing post-process: a hard cap on the
/// number of passes and the tolerance below which a score change does not
/// count as an improvement.
#[derive(Clone, Copy, PartialEq, Eq, Structural, Debug)]
pub struct BalancingConfig {
    pub iterations: usize,
    pub tolerance: PerBill,
}

/// The outcome of an election: the winners in order of election and one
/// staked assignment per voter that reaches at least one winner.
#[derive(Clone, Debug, PartialEq, Eq)]
pub struct ElectionResult {
    pub winners: Vec<u64>,
    pub assignments: Vec<StakedAssignment>,
}

/// Everything that can go wrong; data-integrity failures always propagate,
/// they are never silently absorbed.
#[derive(Clone, Copy, PartialEq, Eq, Structural, Debug)]
pub enum ElectionError {
    /// A winner count was requested but no candidate is available.
    InsufficientCandidates,
    /// A voter's assignment carries no edge at all.
    EmptyVoterSet,
    /// A voter's recorded stake is zero.
    ZeroStakeVoter,
    /// A computation would exceed the representable range.
    ArithmeticOverflow,
    /// The stake lookup has no entry for a voter present in an assignment.
    UnknownVoterStake,
}

} // verus!
