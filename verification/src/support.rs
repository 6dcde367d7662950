//! Aggregation of a staked assignment into per-winner supports.

use vstd::prelude::*;
use crate::types::{StakedAssignment, Support};
use crate::sums::{
    pair_sum_to, support_of, total_all,
    lemma_pair_sum_push, lemma_pair_prefix_le,
    lemma_support_take_step, lemma_prefix_support_le_total,
};

verus! {

/// The contributing `(voter, weight)` entries of one voter's edge list
/// toward candidate `c`, in edge order.
pub open spec fn edge_contribs(who: u64, d: Seq<(u64, u64)>, c: u64) -> Seq<(u64, u64)>
    decreases d.len(),
{
    if d.len() == 0 {
        Seq::empty()
    } else {
        edge_contribs(who, d.drop_last(), c) + if d.last().0 == c {
            seq![(who, d.last().1)]
        } else {
            Seq::empty()
        }
    }
}

/// The contributing entries of all assignments toward candidate `c`, in
/// input order.
pub open spec fn contributors(s: Seq<StakedAssignment>, c: u64) -> Seq<(u64, u64)>
    decreases s.len(),
{
    if s.len() == 0 {
        Seq::empty()
    } else {
        contributors(s.drop_last(), c) + edge_contribs(s.last().who, s.last().distribution@, c)
    }
}

proof fn lemma_edge_contribs_push(who: u64, d: Seq<(u64, u64)>, x: (u64, u64), c: u64)
    ensures
        edge_contribs(who, d.push(x), c) == edge_contribs(who, d, c) + if x.0 == c {
            seq![(who, x.1)]
        } else {
            Seq::<(u64, u64)>::empty()
        },
{
    assert(d.push(x).drop_last() =~= d);
}

proof fn lemma_contributors_take_step(s: Seq<StakedAssignment>, c: u64, i: int)
    requires
        0 <= i < s.len(),
    ensures
        contributors(s.take(i + 1), c) == contributors(s.take(i), c)
            + edge_contribs(s[i].who, s[i].distribution@, c),
{
    assert(s.take(i + 1).drop_last() =~= s.take(i));
    assert(s.take(i + 1).last() == s[i]);
}

/// Computes the support of one candidate: the total weight assigned to it
/// over all staked assignments.
pub fn support_to(assignments: &Vec<StakedAssignment>, c: u64) -> (r: u128)
    requires
        total_all(assignments@) <= u128::MAX,
    ensures
        r as int == support_of(assignments@, c),
{
    let mut total: u128 = 0;
    let mut ai: usize = 0;
    while ai < assignments.len()
        invariant
            total_all(assignments@) <= u128::MAX,
            ai <= assignments@.len(),
            total as int == support_of(assignments@.take(ai as int), c),
        decreases assignments@.len() - ai,
    {
        let a = &assignments[ai];
        let ghost d = a.distribution@;
        let mut j: usize = 0;
        while j < a.distribution.len()
            invariant
                total_all(assignments@) <= u128::MAX,
                ai < assignments@.len(),
                a == assignments@[ai as int],
                d == a.distribution@,
                j <= d.len(),
                total as int == support_of(assignments@.take(ai as int), c)
                    + pair_sum_to(d.take(j as int), c),
            decreases d.len() - j,
        {
            let (t, w) = a.distribution[j];
            proof {
                assert(d.take(j as int + 1) =~= d.take(j as int).push(d[j as int]));
                lemma_pair_sum_push(d.take(j as int), d[j as int], c, Seq::empty());
                lemma_pair_prefix_le(d, c, j as int + 1);
                lemma_support_take_step(assignments@, c, ai as int);
                lemma_prefix_support_le_total(assignments@, c, ai as int + 1);
            }
            if t == c {
                assert(total + w as u128 <= u128::MAX);
                total = total + w as u128;
            }
            j = j + 1;
        }
        proof {
            assert(d.take(d.len() as int) =~= d);
            lemma_support_take_step(assignments@, c, ai as int);
        }
        ai = ai + 1;
    }
    proof {
        assert(assignments@.take(assignments@.len() as int) =~= assignments@);
    }
    total
}

/// Builds the support map: one entry per winner, in winner order, carrying
/// that winner's total backing and its contributing `(voter, weight)` list.
/// Edges to candidates outside the winner set contribute nowhere and are
/// dropped silently; a winner no voter reaches keeps a total of zero.
pub fn build_support_map(winners: &Vec<u64>, assignments: &Vec<StakedAssignment>) -> (r: Vec<(u64, Support)>)
    requires
        total_all(assignments@) <= u128::MAX,
    ensures
        r@.len() == winners@.len(),
        forall|i: int| 0 <= i < winners@.len() ==> {
            &&& (#[trigger] r@[i]).0 == winners@[i]
            &&& r@[i].1.total as int == support_of(assignments@, winners@[i])
            &&& r@[i].1.voters@ == contributors(assignments@, winners@[i])
        },
{
    let mut r: Vec<(u64, Support)> = Vec::new();
    let mut wi: usize = 0;
    while wi < winners.len()
        invariant
            total_all(assignments@) <= u128::MAX,
            wi <= winners@.len(),
            r@.len() == wi,
            forall|i: int| 0 <= i < wi ==> {
                &&& (#[trigger] r@[i]).0 == winners@[i]
                &&& r@[i].1.total as int == support_of(assignments@, winners@[i])
                &&& r@[i].1.voters@ == contributors(assignments@, winners@[i])
            },
        decreases winners@.len() - wi,
    {
        let c = winners[wi];
        let mut total: u128 = 0;
        let mut voters: Vec<(u64, u64)> = Vec::new();
        let mut ai: usize = 0;
        while ai < assignments.len()
            invariant
                total_all(assignments@) <= u128::MAX,
                ai <= assignments@.len(),
                total as int == support_of(assignments@.take(ai as int), c),
                voters@ == contributors(assignments@.take(ai as int), c),
            decreases assignments@.len() - ai,
        {
            let a = &assignments[ai];
            let ghost d = a.distribution@;
            let mut j: usize = 0;
            while j < a.distribution.len()
                invariant
                    total_all(assignments@) <= u128::MAX,
                    ai < assignments@.len(),
                    a == assignments@[ai as int],
                    d == a.distribution@,
                    j <= d.len(),
                    total as int == support_of(assignments@.take(ai as int), c)
                        + pair_sum_to(d.take(j as int), c),
                    voters@ == contributors(assignments@.take(ai as int), c)
                        + edge_contribs(a.who, d.take(j as int), c),
                decreases d.len() - j,
            {
                let (t, w) = a.distribution[j];
                proof {
                    assert(d.take(j as int + 1) =~= d.take(j as int).push(d[j as int]));
                    lemma_pair_sum_push(d.take(j as int), d[j as int], c, Seq::empty());
                    lemma_edge_contribs_push(a.who, d.take(j as int), d[j as int], c);
                    lemma_pair_prefix_le(d, c, j as int + 1);
                    lemma_support_take_step(assignments@, c, ai as int);
                    lemma_prefix_support_le_total(assignments@, c, ai as int + 1);
                }
                if t == c {
                    assert(total + w as u128 <= u128::MAX);
                    total = total + w as u128;
                    voters.push((a.who, w));
                    proof {
                        assert(voters@ =~= contributors(assignments@.take(ai as int), c)
                            + edge_contribs(a.who, d.take(j as int + 1), c));
                    }
                } else {
                    proof {
                        assert(voters@ =~= contributors(assignments@.take(ai as int), c)
                            + edge_contribs(a.who, d.take(j as int + 1), c));
                    }
                }
                j = j + 1;
            }
            proof {
                assert(d.take(d.len() as int) =~= d);
                lemma_support_take_step(assignments@, c, ai as int);
                lemma_contributors_take_step(assignments@, c, ai as int);
            }
            ai = ai + 1;
        }
        proof {
            assert(assignments@.take(assignments@.len() as int) =~= assignments@);
        }
        r.push((c, Support { total, voters }));
        wi = wi + 1;
    }
    r
}

} // verus!
