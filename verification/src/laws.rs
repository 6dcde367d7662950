//! The engine's laws: properties that relate several functions, stated and
//! proved once over the spec functions the contracts use.

use vstd::prelude::*;
use crate::types::{Voter, StakedAssignment};
use crate::sums::{
    total_all, min_support_over, sum_supports_over, sum_squares_over,
    lemma_conservation, lemma_total_into_full, lemma_support_pointwise,
    lemma_aggregates_pointwise,
};
use crate::balance::targets_in;
use crate::solve::{
    assignments_match, best_index, prospective_support, lemma_best_index_props,
};

verus! {

/// Stake conservation: whenever every edge points into a duplicate-free
/// winner set, the supports of all winners together equal exactly the whole
/// weight carried by the assignment — redistribution can move stake between
/// winners but never create or destroy it.
pub proof fn lemma_stake_conservation(winners: Seq<u64>, s: Seq<StakedAssignment>)
    requires
        winners.no_duplicates(),
        targets_in(s, winners),
    ensures
        sum_supports_over(winners, s) == total_all(s),
{
    lemma_conservation(winners, s);
    lemma_total_into_full(s, winners);
}

/// Any two assignment lists that both carry the initial solution of the
/// same election are observably the same: voter by voter, edge by edge, and
/// therefore in every score component. This is what makes the solver
/// deterministic: its contract pins the result's whole content as a
/// function of the inputs alone.
pub proof fn lemma_initial_assignment_unique(
    voters: Seq<Voter>,
    winners: Seq<u64>,
    s1: Seq<StakedAssignment>,
    s2: Seq<StakedAssignment>,
)
    requires
        assignments_match(voters, winners, s1),
        assignments_match(voters, winners, s2),
    ensures
        s1.len() == s2.len(),
        forall|i: int| 0 <= i < s1.len() ==> (#[trigger] s1[i]).who == s2[i].who
            && s1[i].distribution@ == s2[i].distribution@,
        min_support_over(winners, s1) == min_support_over(winners, s2),
        sum_supports_over(winners, s1) == sum_supports_over(winners, s2),
        sum_squares_over(winners, s1) == sum_squares_over(winners, s2),
{
    assert forall|i: int| 0 <= i < s1.len()
        implies (#[trigger] s1[i]).who == s2[i].who
            && s1[i].distribution@ == s2[i].distribution@ by {
        assert(s1[i].who == crate::solve::assigned(voters, winners)[i].who);
        assert(s2[i].who == crate::solve::assigned(voters, winners)[i].who);
    }
    assert forall|i: int| 0 <= i < s1.len()
        implies (#[trigger] s1[i]).distribution@ == (#[trigger] s2[i]).distribution@ by {}
    lemma_support_pointwise(s1, s2);
    lemma_aggregates_pointwise(winners, s1, s2);
}

/// Balancing monotonicity: a balanced result that never scored worse than
/// its own starting assignment also never scores worse than any other copy
/// of the initial solution — the minimal support cannot drop, the summed
/// support is conserved, and the sum of squares cannot grow.
pub proof fn lemma_balancing_monotonic(
    voters: Seq<Voter>,
    winners: Seq<u64>,
    unbalanced: Seq<StakedAssignment>,
    init: Seq<StakedAssignment>,
    balanced: Seq<StakedAssignment>,
)
    requires
        assignments_match(voters, winners, unbalanced),
        assignments_match(voters, winners, init),
        min_support_over(winners, balanced) >= min_support_over(winners, init),
        sum_supports_over(winners, balanced) == sum_supports_over(winners, init),
        sum_squares_over(winners, balanced) <= sum_squares_over(winners, init),
    ensures
        min_support_over(winners, balanced) >= min_support_over(winners, unbalanced),
        sum_supports_over(winners, balanced) == sum_supports_over(winners, unbalanced),
        sum_squares_over(winners, balanced) <= sum_squares_over(winners, unbalanced),
{
    lemma_initial_assignment_unique(voters, winners, unbalanced, init);
}

/// Tie-break stability: when a remaining candidate carries the same
/// prospective support as the one the round elects, the elected candidate
/// has the lower identifier.
pub proof fn lemma_tie_break_stability(
    rem: Seq<u64>,
    voters: Seq<Voter>,
    winners: Seq<u64>,
    j: int,
)
    requires
        rem.len() > 0,
        0 <= j < rem.len(),
        prospective_support(voters, winners, rem[j]) == prospective_support(
            voters,
            winners,
            rem[best_index(rem, voters, winners)],
        ),
    ensures
        rem[best_index(rem, voters, winners)] <= rem[j],
{
    lemma_best_index_props(rem, voters, winners);
}

} // verus!
