//! The balancer: iterative redistribution of each voter's stake across its
//! accepted winners to flatten the support distribution. An adjustment pass
//! is kept only when the comparator certifies a genuine improvement, so the
//! result provably never scores worse than its input.

use vstd::prelude::*;
use crate::types::{StakedAssignment, Score, BalancingConfig};
use crate::sums::{
    pair_sum, total_all, support_of, min_support_over, sum_supports_over, sum_squares_over,
    lemma_pair_sum_two_terms, lemma_pair_sum_update, lemma_dist_le_total,
    lemma_support_bounds, lemma_conservation, lemma_total_into_full,
    lemma_squares_le_square, lemma_min_support_range, lemma_support_pointwise,
};
use crate::support::{build_support_map, support_to};
use crate::score::{evaluate_support, is_better, map_sum, map_sq, lemma_map_matches};
use vstd::pervasive::unreached;

verus! {

/// Structural agreement of two assignment lists: the same voters carrying
/// the same edge targets in the same order, each voter's total conserved.
pub open spec fn same_shape(s1: Seq<StakedAssignment>, s2: Seq<StakedAssignment>) -> bool {
    &&& s1.len() == s2.len()
    &&& forall|i: int| 0 <= i < s1.len() ==> {
        &&& (#[trigger] s2[i]).who == s1[i].who
        &&& s2[i].distribution@.len() == s1[i].distribution@.len()
        &&& (forall|j: int| 0 <= j < s1[i].distribution@.len()
            ==> (#[trigger] s2[i].distribution@[j]).0 == s1[i].distribution@[j].0)
        &&& pair_sum(s2[i].distribution@) == pair_sum(s1[i].distribution@)
    }
}

/// Every edge of every assignment points into the winner set.
pub open spec fn targets_in(s: Seq<StakedAssignment>, winners: Seq<u64>) -> bool {
    forall|i: int, j: int|
        0 <= i < s.len() && 0 <= j < s[i].distribution@.len()
            ==> winners.contains((#[trigger] s[i].distribution@[j]).0)
}

pub proof fn lemma_same_shape_trans(
    a: Seq<StakedAssignment>,
    b: Seq<StakedAssignment>,
    c: Seq<StakedAssignment>,
)
    requires
        same_shape(a, b),
        same_shape(b, c),
    ensures
        same_shape(a, c),
{
    assert forall|i: int| 0 <= i < a.len() implies {
        &&& (#[trigger] c[i]).who == a[i].who
        &&& c[i].distribution@.len() == a[i].distribution@.len()
        &&& (forall|j: int| 0 <= j < a[i].distribution@.len()
            ==> (#[trigger] c[i].distribution@[j]).0 == a[i].distribution@[j].0)
        &&& pair_sum(c[i].distribution@) == pair_sum(a[i].distribution@)
    } by {
        assert(b[i].who == a[i].who);
        assert(c[i].who == b[i].who);
        assert forall|j: int| 0 <= j < a[i].distribution@.len()
            implies (#[trigger] c[i].distribution@[j]).0 == a[i].distribution@[j].0 by {
            assert(b[i].distribution@[j].0 == a[i].distribution@[j].0);
            assert(c[i].distribution@[j].0 == b[i].distribution@[j].0);
        }
    }
}

pub proof fn lemma_targets_preserved(
    s1: Seq<StakedAssignment>,
    s2: Seq<StakedAssignment>,
    winners: Seq<u64>,
)
    requires
        same_shape(s1, s2),
        targets_in(s1, winners),
    ensures
        targets_in(s2, winners),
{
    assert forall|i: int, j: int|
        0 <= i < s2.len() && 0 <= j < s2[i].distribution@.len()
            implies winners.contains((#[trigger] s2[i].distribution@[j]).0) by {
        assert(s2[i].distribution@[j].0 == s1[i].distribution@[j].0);
        assert(winners.contains(s1[i].distribution@[j].0));
    }
}

/// Scores an assignment against a winner set by building its support map
/// and evaluating it. Under the stated bounds the evaluation cannot
/// overflow, so a plain score comes back.
pub fn score_of_assignment(winners: &Vec<u64>, assignments: &Vec<StakedAssignment>) -> (s: Score)
    requires
        winners@.no_duplicates(),
        targets_in(assignments@, winners@),
        total_all(assignments@) <= u64::MAX,
    ensures
        s.min_support as int == min_support_over(winners@, assignments@),
        s.sum_squares as int == sum_squares_over(winners@, assignments@),
        s.sum_support as int == sum_supports_over(winners@, assignments@),
{
    proof {
        lemma_support_bounds(assignments@, 0, winners@);
    }
    let m = build_support_map(winners, assignments);
    proof {
        lemma_map_matches(winners@, assignments@, m@);
        lemma_conservation(winners@, assignments@);
        lemma_total_into_full(assignments@, winners@);
        lemma_squares_le_square(winners@, assignments@);
        lemma_min_support_range(winners@, assignments@);
        assert(map_sum(m@) <= u64::MAX as int);
        assert(map_sq(m@) <= u128::MAX as int) by (nonlinear_arith)
            requires
                map_sq(m@) <= map_sum(m@) * map_sum(m@),
                0 <= map_sum(m@) <= u64::MAX as int,
        ;
    }
    match evaluate_support(&m) {
        Ok(s) => s,
        Err(_) => unreached(),
    }
}

/// A deep copy of an assignment list; only the carried values matter, and
/// they are preserved exactly.
fn copy_assignments(s: &Vec<StakedAssignment>) -> (r: Vec<StakedAssignment>)
    ensures
        r@.len() == s@.len(),
        forall|i: int| 0 <= i < s@.len() ==> (#[trigger] r@[i]).who == s@[i].who
            && r@[i].distribution@ == s@[i].distribution@,
{
    let mut r: Vec<StakedAssignment> = Vec::new();
    let mut i: usize = 0;
    while i < s.len()
        invariant
            i <= s@.len(),
            r@.len() == i,
            forall|ii: int| 0 <= ii < i ==> (#[trigger] r@[ii]).who == s@[ii].who
                && r@[ii].distribution@ == s@[ii].distribution@,
        decreases s@.len() - i,
    {
        let mut d: Vec<(u64, u64)> = Vec::new();
        let mut j: usize = 0;
        while j < s[i].distribution.len()
            invariant
                i < s@.len(),
                j <= s@[i as int].distribution@.len(),
                d@.len() == j,
                forall|jj: int| 0 <= jj < j ==> #[trigger] d@[jj] == s@[i as int].distribution@[jj],
            decreases s@[i as int].distribution@.len() - j,
        {
            let e = s[i].distribution[j];
            d.push(e);
            j = j + 1;
        }
        proof {
            assert(d@ =~= s@[i as int].distribution@);
        }
        let who = s[i].who;
        r.push(StakedAssignment { who, distribution: d });
        i = i + 1;
    }
    r
}

/// One balancing pass. For each voter in turn, a bounded amount of stake
/// moves from its edge with the currently highest support to its edge with
/// the currently lowest support; supports are re-read from the adjusted
/// state, so later voters in the pass see earlier adjustments. The voters,
/// their edge targets and each voter's total weight are untouched.
fn balance_pass(asg0: Vec<StakedAssignment>) -> (r: Vec<StakedAssignment>)
    requires
        total_all(asg0@) <= u64::MAX,
    ensures
        same_shape(asg0@, r@),
        total_all(r@) == total_all(asg0@),
{
    let mut asg = asg0;
    let ghost init = asg@;
    let mut i: usize = 0;
    while i < asg.len()
        invariant
            i <= asg@.len(),
            same_shape(init, asg@),
            total_all(asg@) == total_all(init),
            total_all(init) <= u64::MAX,
        decreases asg@.len() - i,
    {
        let dlen = asg[i].distribution.len();
        if dlen >= 2 {
            let ghost dold = asg@[i as int].distribution@;
            // Current support of each edge's target.
            let mut sup: Vec<u128> = Vec::new();
            let mut j: usize = 0;
            while j < dlen
                invariant
                    i < asg@.len(),
                    dold == asg@[i as int].distribution@,
                    dlen == dold.len(),
                    total_all(asg@) <= u64::MAX,
                    j <= dlen,
                    sup@.len() == j,
                    forall|jj: int| 0 <= jj < j
                        ==> (#[trigger] sup@[jj]) as int == support_of(asg@, dold[jj].0),
                decreases dlen - j,
            {
                let t = asg[i].distribution[j].0;
                let s = support_to(&asg, t);
                sup.push(s);
                j = j + 1;
            }
            // First edge carrying the highest, and first carrying the lowest
            // support.
            let mut jmax: usize = 0;
            let mut jmin: usize = 0;
            let mut j2: usize = 1;
            while j2 < dlen
                invariant
                    sup@.len() == dlen,
                    dlen >= 2,
                    jmax < j2,
                    jmin < j2,
                    1 <= j2 <= dlen,
                    forall|jj: int| 0 <= jj < j2 ==> (#[trigger] sup@[jj]) <= sup@[jmax as int],
                    forall|jj: int| 0 <= jj < j2 ==> sup@[jmin as int] <= (#[trigger] sup@[jj]),
                decreases dlen - j2,
            {
                if sup[j2] > sup[jmax] {
                    jmax = j2;
                }
                if sup[j2] < sup[jmin] {
                    jmin = j2;
                }
                j2 = j2 + 1;
            }
            let smax: u128 = sup[jmax];
            let smin: u128 = sup[jmin];
            let wmax: u64 = asg[i].distribution[jmax].1;
            // The shift: bounded by the donor edge's weight and by half the
            // spread, so neither weight leaves its range.
            let half: u128 = (smax - smin) / 2;
            let delta: u64 = if (wmax as u128) < half {
                wmax
            } else {
                half as u64
            };
            proof {
                if jmax != jmin {
                    lemma_pair_sum_two_terms(dold, jmax as int, jmin as int);
                    lemma_dist_le_total(asg@, i as int);
                }
            }
            let mut nd: Vec<(u64, u64)> = Vec::new();
            let mut j3: usize = 0;
            while j3 < dlen
                invariant
                    i < asg@.len(),
                    dold == asg@[i as int].distribution@,
                    dlen == dold.len(),
                    jmax < dlen,
                    jmin < dlen,
                    delta as int <= dold[jmax as int].1 as int,
                    jmax != jmin ==> dold[jmin as int].1 as int + dold[jmax as int].1 as int
                        <= u64::MAX as int,
                    jmax == jmin ==> delta == 0,
                    j3 <= dlen,
                    nd@.len() == j3,
                    forall|jj: int| 0 <= jj < j3 ==> (#[trigger] nd@[jj]).0 == dold[jj].0
                        && nd@[jj].1 as int == (if jj == jmax as int {
                            dold[jj].1 - delta
                        } else if jj == jmin as int {
                            dold[jj].1 + delta
                        } else {
                            dold[jj].1 as int
                        }),
                decreases dlen - j3,
            {
                let (t, w) = asg[i].distribution[j3];
                let nw: u64 = if j3 == jmax {
                    w - delta
                } else if j3 == jmin {
                    w + delta
                } else {
                    w
                };
                nd.push((t, nw));
                j3 = j3 + 1;
            }
            proof {
                if jmax != jmin {
                    let mid = dold.update(
                        jmax as int,
                        (dold[jmax as int].0, (dold[jmax as int].1 - delta) as u64),
                    );
                    assert(nd@ =~= mid.update(
                        jmin as int,
                        (dold[jmin as int].0, (dold[jmin as int].1 + delta) as u64),
                    ));
                    lemma_pair_sum_update(
                        dold,
                        jmax as int,
                        (dold[jmax as int].0, (dold[jmax as int].1 - delta) as u64),
                        0,
                    );
                    lemma_pair_sum_update(
                        mid,
                        jmin as int,
                        (dold[jmin as int].0, (dold[jmin as int].1 + delta) as u64),
                        0,
                    );
                    assert(pair_sum(nd@) == pair_sum(dold));
                } else {
                    assert(nd@ =~= dold);
                }
            }
            let who = asg[i].who;
            let ghost pre = asg@;
            let na = StakedAssignment { who, distribution: nd };
            let ghost nav = na;
            asg.set(i, na);
            proof {
                crate::sums::lemma_support_update(pre, i as int, nav, 0);
                assert(total_all(asg@) == total_all(init));
                assert forall|ii: int| 0 <= ii < init.len() implies {
                    &&& (#[trigger] asg@[ii]).who == init[ii].who
                    &&& asg@[ii].distribution@.len() == init[ii].distribution@.len()
                    &&& (forall|jj: int| 0 <= jj < init[ii].distribution@.len()
                        ==> (#[trigger] asg@[ii].distribution@[jj]).0
                            == init[ii].distribution@[jj].0)
                    &&& pair_sum(asg@[ii].distribution@) == pair_sum(init[ii].distribution@)
                } by {
                    if ii == i as int {
                        assert(asg@[ii] == nav);
                        assert(nav.distribution@.len() == dold.len());
                        assert(pair_sum(nav.distribution@) == pair_sum(dold));
                        assert(pre[ii].distribution@ == dold);
                        assert forall|jj: int| 0 <= jj < init[ii].distribution@.len()
                            implies (#[trigger] asg@[ii].distribution@[jj]).0
                                == init[ii].distribution@[jj].0 by {
                            assert(nav.distribution@[jj].0 == dold[jj].0);
                            assert(dold[jj].0 == init[ii].distribution@[jj].0);
                        }
                    } else {
                        assert(asg@[ii] == pre[ii]);
                    }
                }
                assert(same_shape(init, asg@));
            }
        }
        i = i + 1;
    }
    asg
}

/// Balances a staked assignment against a winner set, bounded by the
/// configured iteration count. A pass is kept only when the comparator
/// finds its score a genuine improvement under the configured tolerance and
/// the certified invariant holds: the minimal support never drops, the
/// summed support is conserved, and the sum of squares never grows — so the
/// result never scores worse than the input, and zero iterations return the
/// input untouched.
pub fn balance(
    winners: &Vec<u64>,
    assignments: Vec<StakedAssignment>,
    config: BalancingConfig,
) -> (r: Vec<StakedAssignment>)
    requires
        config.tolerance.is_valid(),
        winners@.no_duplicates(),
        targets_in(assignments@, winners@),
        total_all(assignments@) <= u64::MAX,
    ensures
        same_shape(assignments@, r@),
        targets_in(r@, winners@),
        total_all(r@) == total_all(assignments@),
        min_support_over(winners@, r@) >= min_support_over(winners@, assignments@),
        sum_supports_over(winners@, r@) == sum_supports_over(winners@, assignments@),
        sum_squares_over(winners@, r@) <= sum_squares_over(winners@, assignments@),
        config.iterations == 0 ==> r@ == assignments@,
{
    let ghost init = assignments@;
    let mut cur = assignments;
    let mut it: usize = 0;
    while it < config.iterations
        invariant
            config.tolerance.is_valid(),
            winners@.no_duplicates(),
            it <= config.iterations,
            same_shape(init, cur@),
            targets_in(cur@, winners@),
            total_all(cur@) == total_all(init),
            total_all(init) <= u64::MAX,
            min_support_over(winners@, cur@) >= min_support_over(winners@, init),
            sum_supports_over(winners@, cur@) == sum_supports_over(winners@, init),
            sum_squares_over(winners@, cur@) <= sum_squares_over(winners@, init),
            it == 0 ==> cur@ == init,
        ensures
            same_shape(init, cur@),
            targets_in(cur@, winners@),
            total_all(cur@) == total_all(init),
            min_support_over(winners@, cur@) >= min_support_over(winners@, init),
            sum_supports_over(winners@, cur@) == sum_supports_over(winners@, init),
            sum_squares_over(winners@, cur@) <= sum_squares_over(winners@, init),
            config.iterations == 0 ==> cur@ == init,
        decreases config.iterations - it,
    {
        let before = score_of_assignment(winners, &cur);
        let mut work = copy_assignments(&cur);
        proof {
            lemma_support_pointwise(cur@, work@);
            assert(same_shape(cur@, work@));
        }
        let work = balance_pass(work);
        proof {
            lemma_same_shape_trans(init, cur@, work@);
            lemma_targets_preserved(cur@, work@, winners@);
        }
        let after = score_of_assignment(winners, &work);
        let improved = is_better(after, before, config.tolerance);
        if improved && after.min_support >= before.min_support
            && after.sum_support == before.sum_support
            && after.sum_squares <= before.sum_squares {
            cur = work;
            it = it + 1;
        } else {
            break;
        }
    }
    cur
}

} // verus!
