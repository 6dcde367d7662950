//! Mathematical model of stake aggregation: sums of edge weights, per-winner
//! support, and the lemmas that relate them. Every contract of the engine is
//! stated over these spec functions.

use vstd::prelude::*;
use crate::types::StakedAssignment;

verus! {

/// Sum of the weights of an edge list.
pub open spec fn pair_sum(s: Seq<(u64, u64)>) -> int
    decreases s.len(),
{
    if s.len() == 0 {
        0
    } else {
        pair_sum(s.drop_last()) + s.last().1 as int
    }
}

/// Sum of the weights of the edges of an edge list that point at `c`.
pub open spec fn pair_sum_to(s: Seq<(u64, u64)>, c: u64) -> int
    decreases s.len(),
{
    if s.len() == 0 {
        0
    } else {
        pair_sum_to(s.drop_last(), c) + if s.last().0 == c {
            s.last().1 as int
        } else {
            0
        }
    }
}

/// Sum of the weights of the edges whose target is among `winners`.
pub open spec fn pair_sum_into(s: Seq<(u64, u64)>, winners: Seq<u64>) -> int
    decreases s.len(),
{
    if s.len() == 0 {
        0
    } else {
        pair_sum_into(s.drop_last(), winners) + if winners.contains(s.last().0) {
            s.last().1 as int
        } else {
            0
        }
    }
}

pub proof fn lemma_pair_sum_bounds(s: Seq<(u64, u64)>, c: u64, winners: Seq<u64>)
    ensures
        0 <= pair_sum_to(s, c) <= pair_sum(s),
        0 <= pair_sum_into(s, winners) <= pair_sum(s),
    decreases s.len(),
{
    if s.len() > 0 {
        lemma_pair_sum_bounds(s.drop_last(), c, winners);
    }
}

pub proof fn lemma_pair_sum_push(s: Seq<(u64, u64)>, x: (u64, u64), c: u64, winners: Seq<u64>)
    ensures
        pair_sum(s.push(x)) == pair_sum(s) + x.1 as int,
        pair_sum_to(s.push(x), c) == pair_sum_to(s, c) + if x.0 == c { x.1 as int } else { 0 },
        pair_sum_into(s.push(x), winners) == pair_sum_into(s, winners) + if winners.contains(x.0) { x.1 as int } else { 0 },
{
    assert(s.push(x).drop_last() =~= s);
}

/// Each single weight is bounded by the sum of all of them.
pub proof fn lemma_pair_sum_term(s: Seq<(u64, u64)>, i: int)
    requires
        0 <= i < s.len(),
    ensures
        s[i].1 as int <= pair_sum(s),
    decreases s.len(),
{
    lemma_pair_sum_bounds(s.drop_last(), 0, Seq::empty());
    if i < s.len() - 1 {
        lemma_pair_sum_term(s.drop_last(), i);
    }
}

/// Two distinct weights are together bounded by the sum of all of them.
pub proof fn lemma_pair_sum_two_terms(s: Seq<(u64, u64)>, i: int, j: int)
    requires
        0 <= i < s.len(),
        0 <= j < s.len(),
        i != j,
    ensures
        s[i].1 as int + s[j].1 as int <= pair_sum(s),
    decreases s.len(),
{
    if i == s.len() - 1 {
        lemma_pair_sum_term(s.drop_last(), j);
    } else if j == s.len() - 1 {
        lemma_pair_sum_term(s.drop_last(), i);
    } else {
        lemma_pair_sum_two_terms(s.drop_last(), i, j);
    }
}

/// Replacing one edge changes the sums by exactly the difference of that
/// edge's contribution.
pub proof fn lemma_pair_sum_update(s: Seq<(u64, u64)>, i: int, x: (u64, u64), c: u64)
    requires
        0 <= i < s.len(),
    ensures
        pair_sum(s.update(i, x)) == pair_sum(s) - s[i].1 as int + x.1 as int,
        pair_sum_to(s.update(i, x), c) == pair_sum_to(s, c)
            - (if s[i].0 == c { s[i].1 as int } else { 0 })
            + (if x.0 == c { x.1 as int } else { 0 }),
    decreases s.len(),
{
    if i == s.len() - 1 {
        assert(s.update(i, x).drop_last() =~= s.drop_last());
    } else {
        assert(s.update(i, x).drop_last() =~= s.drop_last().update(i, x));
        lemma_pair_sum_update(s.drop_last(), i, x, c);
    }
}

/// A prefix of an edge list carries at most the weight of the whole list,
/// toward any candidate.
pub proof fn lemma_pair_prefix_le(s: Seq<(u64, u64)>, c: u64, j: int)
    requires
        0 <= j <= s.len(),
    ensures
        pair_sum_to(s.take(j), c) <= pair_sum_to(s, c),
        pair_sum(s.take(j)) <= pair_sum(s),
    decreases s.len() - j,
{
    if j == s.len() {
        assert(s.take(j) =~= s);
    } else {
        assert(s.take(j + 1).drop_last() =~= s.take(j));
        assert(s.take(j + 1).last() == s[j]);
        lemma_pair_prefix_le(s, c, j + 1);
    }
}

/// Support of candidate `c`: the total weight assigned to `c` over all
/// staked assignments.
pub open spec fn support_of(s: Seq<StakedAssignment>, c: u64) -> int
    decreases s.len(),
{
    if s.len() == 0 {
        0
    } else {
        support_of(s.drop_last(), c) + pair_sum_to(s.last().distribution@, c)
    }
}

/// The total weight carried by all edges of all staked assignments.
pub open spec fn total_all(s: Seq<StakedAssignment>) -> int
    decreases s.len(),
{
    if s.len() == 0 {
        0
    } else {
        total_all(s.drop_last()) + pair_sum(s.last().distribution@)
    }
}

/// The total weight carried by edges pointing into `winners`.
pub open spec fn total_into(s: Seq<StakedAssignment>, winners: Seq<u64>) -> int
    decreases s.len(),
{
    if s.len() == 0 {
        0
    } else {
        total_into(s.drop_last(), winners) + pair_sum_into(s.last().distribution@, winners)
    }
}

pub proof fn lemma_support_bounds(s: Seq<StakedAssignment>, c: u64, winners: Seq<u64>)
    ensures
        0 <= support_of(s, c) <= total_all(s),
        0 <= total_into(s, winners) <= total_all(s),
    decreases s.len(),
{
    if s.len() > 0 {
        lemma_support_bounds(s.drop_last(), c, winners);
        lemma_pair_sum_bounds(s.last().distribution@, c, winners);
    }
}

/// Sum of the supports of the listed winners.
pub open spec fn sum_supports_over(winners: Seq<u64>, s: Seq<StakedAssignment>) -> int
    decreases winners.len(),
{
    if winners.len() == 0 {
        0
    } else {
        sum_supports_over(winners.drop_last(), s) + support_of(s, winners.last())
    }
}

/// Sum of the squared supports of the listed winners.
pub open spec fn sum_squares_over(winners: Seq<u64>, s: Seq<StakedAssignment>) -> int
    decreases winners.len(),
{
    if winners.len() == 0 {
        0
    } else {
        sum_squares_over(winners.drop_last(), s)
            + support_of(s, winners.last()) * support_of(s, winners.last())
    }
}

/// The minimal support among the listed winners; zero when there is none.
pub open spec fn min_support_over(winners: Seq<u64>, s: Seq<StakedAssignment>) -> int
    decreases winners.len(),
{
    if winners.len() == 0 {
        0
    } else if winners.len() == 1 {
        support_of(s, winners.last())
    } else {
        let rest = min_support_over(winners.drop_last(), s);
        if support_of(s, winners.last()) < rest {
            support_of(s, winners.last())
        } else {
            rest
        }
    }
}

/// Membership in a sequence is membership in all of it but the last element,
/// or equality with that element.
pub proof fn lemma_contains_unsnoc(w: Seq<u64>, t: u64)
    requires
        w.len() > 0,
    ensures
        w.contains(t) <==> (w.drop_last().contains(t) || t == w.last()),
{
    if w.contains(t) {
        let i = choose|i: int| 0 <= i < w.len() && w[i] == t;
        if i < w.len() - 1 {
            assert(w.drop_last()[i] == t);
        }
    }
    if w.drop_last().contains(t) {
        let i = choose|i: int| 0 <= i < w.drop_last().len() && w.drop_last()[i] == t;
        assert(w[i] == t);
    }
    if t == w.last() {
        assert(w[w.len() - 1] == t);
    }
}

/// Splitting the winner list: weight into `w` is weight into all winners but
/// the last plus the weight to the last, provided the last is no repeat.
pub proof fn lemma_pair_sum_into_unsnoc(d: Seq<(u64, u64)>, w: Seq<u64>)
    requires
        w.len() > 0,
        !w.drop_last().contains(w.last()),
    ensures
        pair_sum_into(d, w) == pair_sum_into(d, w.drop_last()) + pair_sum_to(d, w.last()),
    decreases d.len(),
{
    if d.len() > 0 {
        lemma_pair_sum_into_unsnoc(d.drop_last(), w);
        lemma_contains_unsnoc(w, d.last().0);
    }
}

pub proof fn lemma_total_into_unsnoc(s: Seq<StakedAssignment>, w: Seq<u64>)
    requires
        w.len() > 0,
        !w.drop_last().contains(w.last()),
    ensures
        total_into(s, w) == total_into(s, w.drop_last()) + support_of(s, w.last()),
    decreases s.len(),
{
    if s.len() > 0 {
        lemma_total_into_unsnoc(s.drop_last(), w);
        lemma_pair_sum_into_unsnoc(s.last().distribution@, w);
    }
}

/// Conservation: with no duplicate among the winners, the supports of all
/// winners sum to exactly the weight carried by edges into the winner set.
pub proof fn lemma_conservation(winners: Seq<u64>, s: Seq<StakedAssignment>)
    requires
        winners.no_duplicates(),
    ensures
        sum_supports_over(winners, s) == total_into(s, winners),
    decreases winners.len(),
{
    if winners.len() == 0 {
        lemma_total_into_empty(s, winners);
    } else {
        assert(winners.drop_last().no_duplicates());
        assert(!winners.drop_last().contains(winners.last())) by {
            if winners.drop_last().contains(winners.last()) {
                let i = choose|i: int|
                    0 <= i < winners.len() - 1 && winners.drop_last()[i] == winners.last();
                assert(winners[i] == winners[winners.len() - 1]);
            }
        }
        lemma_conservation(winners.drop_last(), s);
        lemma_total_into_unsnoc(s, winners);
    }
}

pub proof fn lemma_total_into_empty(s: Seq<StakedAssignment>, w: Seq<u64>)
    requires
        w.len() == 0,
    ensures
        total_into(s, w) == 0,
    decreases s.len(),
{
    if s.len() > 0 {
        lemma_total_into_empty(s.drop_last(), w);
        lemma_pair_sum_into_empty(s.last().distribution@, w);
    }
}

pub proof fn lemma_pair_sum_into_empty(d: Seq<(u64, u64)>, w: Seq<u64>)
    requires
        w.len() == 0,
    ensures
        pair_sum_into(d, w) == 0,
    decreases d.len(),
{
    if d.len() > 0 {
        lemma_pair_sum_into_empty(d.drop_last(), w);
    }
}

/// When every edge of every assignment points into the winner set, the whole
/// carried weight flows into it.
pub proof fn lemma_pair_sum_into_full(d: Seq<(u64, u64)>, w: Seq<u64>)
    requires
        forall|j: int| 0 <= j < d.len() ==> w.contains(#[trigger] d[j].0),
    ensures
        pair_sum_into(d, w) == pair_sum(d),
    decreases d.len(),
{
    if d.len() > 0 {
        assert(d.last() == d[d.len() - 1]);
        lemma_pair_sum_into_full(d.drop_last(), w);
    }
}

pub proof fn lemma_total_into_full(s: Seq<StakedAssignment>, w: Seq<u64>)
    requires
        forall|i: int, j: int|
            0 <= i < s.len() && 0 <= j < s[i].distribution@.len()
                ==> w.contains(#[trigger] s[i].distribution@[j].0),
    ensures
        total_into(s, w) == total_all(s),
    decreases s.len(),
{
    if s.len() > 0 {
        assert(s.last() == s[s.len() - 1]);
        lemma_total_into_full(s.drop_last(), w);
        lemma_pair_sum_into_full(s.last().distribution@, w);
    }
}

/// Every support is non-negative, and the sum of the squared supports is
/// bounded by the square of the summed supports.
pub proof fn lemma_squares_le_square(winners: Seq<u64>, s: Seq<StakedAssignment>)
    ensures
        0 <= sum_supports_over(winners, s),
        0 <= sum_squares_over(winners, s)
            <= sum_supports_over(winners, s) * sum_supports_over(winners, s),
    decreases winners.len(),
{
    if winners.len() > 0 {
        lemma_squares_le_square(winners.drop_last(), s);
        lemma_support_bounds(s, winners.last(), winners);
        let a = sum_supports_over(winners.drop_last(), s);
        let t = support_of(s, winners.last());
        let q = sum_squares_over(winners.drop_last(), s);
        assert(q + t * t <= (a + t) * (a + t)) by (nonlinear_arith)
            requires
                0 <= a,
                0 <= t,
                0 <= q <= a * a,
        ;
    }
}

/// The minimal support is non-negative and bounded by the summed supports.
pub proof fn lemma_min_support_range(winners: Seq<u64>, s: Seq<StakedAssignment>)
    ensures
        0 <= min_support_over(winners, s),
        min_support_over(winners, s) <= sum_supports_over(winners, s),
    decreases winners.len(),
{
    if winners.len() > 0 {
        lemma_min_support_range(winners.drop_last(), s);
        lemma_support_bounds(s, winners.last(), winners);
        lemma_sum_supports_nonneg(winners.drop_last(), s);
    }
}

pub proof fn lemma_sum_supports_nonneg(winners: Seq<u64>, s: Seq<StakedAssignment>)
    ensures
        0 <= sum_supports_over(winners, s),
    decreases winners.len(),
{
    if winners.len() > 0 {
        lemma_sum_supports_nonneg(winners.drop_last(), s);
        lemma_support_bounds(s, winners.last(), winners);
    }
}

/// Extending a prefix of the assignments by one assignment adds exactly that
/// assignment's contribution.
pub proof fn lemma_support_take_step(s: Seq<StakedAssignment>, c: u64, i: int)
    requires
        0 <= i < s.len(),
    ensures
        support_of(s.take(i + 1), c) == support_of(s.take(i), c)
            + pair_sum_to(s[i].distribution@, c),
        total_all(s.take(i + 1)) == total_all(s.take(i)) + pair_sum(s[i].distribution@),
{
    assert(s.take(i + 1).drop_last() =~= s.take(i));
    assert(s.take(i + 1).last() == s[i]);
}

/// The support accumulated over a prefix of the assignments never exceeds
/// the total weight carried by all of them.
pub proof fn lemma_prefix_support_le_total(s: Seq<StakedAssignment>, c: u64, i: int)
    requires
        0 <= i <= s.len(),
    ensures
        support_of(s.take(i), c) <= total_all(s),
        0 <= support_of(s.take(i), c),
        total_all(s.take(i)) <= total_all(s),
    decreases s.len() - i,
{
    lemma_support_bounds(s.take(i), c, Seq::empty());
    if i == s.len() {
        assert(s.take(i) =~= s);
    } else {
        lemma_support_take_step(s, c, i);
        lemma_pair_sum_bounds(s[i].distribution@, c, Seq::empty());
        lemma_prefix_support_le_total(s, c, i + 1);
    }
}

/// Each single assignment's carried weight is bounded by the total.
pub proof fn lemma_dist_le_total(s: Seq<StakedAssignment>, i: int)
    requires
        0 <= i < s.len(),
    ensures
        pair_sum(s[i].distribution@) <= total_all(s),
    decreases s.len(),
{
    lemma_support_bounds(s.drop_last(), 0, Seq::empty());
    lemma_pair_sum_bounds(s.last().distribution@, 0, Seq::empty());
    if i < s.len() - 1 {
        lemma_dist_le_total(s.drop_last(), i);
    }
}

/// Two sequences of assignments with pointwise equal edge lists have the
/// same support everywhere and carry the same total weight.
pub proof fn lemma_support_pointwise(s1: Seq<StakedAssignment>, s2: Seq<StakedAssignment>)
    requires
        s1.len() == s2.len(),
        forall|i: int| 0 <= i < s1.len()
            ==> (#[trigger] s1[i]).distribution@ == (#[trigger] s2[i]).distribution@,
    ensures
        forall|c: u64| support_of(s1, c) == #[trigger] support_of(s2, c),
        total_all(s1) == total_all(s2),
    decreases s1.len(),
{
    if s1.len() > 0 {
        assert(s1.last() == s1[s1.len() - 1]);
        assert(s2.last() == s2[s2.len() - 1]);
        assert forall|i: int| 0 <= i < s1.drop_last().len()
            implies (#[trigger] s1.drop_last()[i]).distribution@
                == (#[trigger] s2.drop_last()[i]).distribution@ by {
            assert(s1.drop_last()[i] == s1[i]);
            assert(s2.drop_last()[i] == s2[i]);
        }
        lemma_support_pointwise(s1.drop_last(), s2.drop_last());
        assert forall|c: u64| support_of(s1, c) == #[trigger] support_of(s2, c) by {
            assert(support_of(s1.drop_last(), c) == support_of(s2.drop_last(), c));
            assert(s1.last().distribution@ == s2.last().distribution@);
        }
    }
}

/// Two assignment sequences with equal supports at every candidate have
/// identical score aggregates over any winner list.
pub proof fn lemma_aggregates_pointwise(
    winners: Seq<u64>,
    s1: Seq<StakedAssignment>,
    s2: Seq<StakedAssignment>,
)
    requires
        forall|c: u64| support_of(s1, c) == #[trigger] support_of(s2, c),
    ensures
        min_support_over(winners, s1) == min_support_over(winners, s2),
        sum_supports_over(winners, s1) == sum_supports_over(winners, s2),
        sum_squares_over(winners, s1) == sum_squares_over(winners, s2),
    decreases winners.len(),
{
    if winners.len() > 0 {
        lemma_aggregates_pointwise(winners.drop_last(), s1, s2);
    }
}

/// Replacing one assignment changes the aggregates by exactly the difference
/// of that assignment's contribution.
pub proof fn lemma_support_update(s: Seq<StakedAssignment>, i: int, a: StakedAssignment, c: u64)
    requires
        0 <= i < s.len(),
    ensures
        support_of(s.update(i, a), c) == support_of(s, c)
            - pair_sum_to(s[i].distribution@, c) + pair_sum_to(a.distribution@, c),
        total_all(s.update(i, a)) == total_all(s)
            - pair_sum(s[i].distribution@) + pair_sum(a.distribution@),
    decreases s.len(),
{
    if i == s.len() - 1 {
        assert(s.update(i, a).drop_last() =~= s.drop_last());
    } else {
        assert(s.update(i, a).drop_last() =~= s.drop_last().update(i, a));
        lemma_support_update(s.drop_last(), i, a, c);
    }
}

} // verus!
