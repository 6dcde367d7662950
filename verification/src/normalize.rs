//! Conversion of ratio-form assignments into staked form, conserving each
//! voter's total stake exactly under deterministic rounding.

use vstd::prelude::*;
use crate::types::{Assignment, StakedAssignment, PerBill, ElectionError};
use crate::sums::{pair_sum, lemma_pair_sum_push, lemma_pair_sum_term, lemma_pair_sum_update};
use crate::BILLION;
use vstd::arithmetic::div_mod::{
    lemma_fundamental_div_mod, lemma_div_is_ordered, lemma_div_multiples_vanish,
    lemma_mod_division_less_than_divisor,
};

verus! {

/// Sum of the ratio parts of a ratio-form edge list.
pub open spec fn ratio_total(d: Seq<(u64, PerBill)>) -> int
    decreases d.len(),
{
    if d.len() == 0 {
        0
    } else {
        ratio_total(d.drop_last()) + d.last().1.parts as int
    }
}

/// Every ratio of the edge list is well formed.
pub open spec fn ratios_valid(d: Seq<(u64, PerBill)>) -> bool {
    forall|i: int| 0 <= i < d.len() ==> (#[trigger] d[i]).1.is_valid()
}

/// A well-formed ratio assignment: edges present and fractions summing to
/// exactly one.
pub open spec fn ratio_assignment_valid(a: Assignment) -> bool {
    &&& ratios_valid(a.distribution@)
    &&& a.distribution@.len() > 0 ==> ratio_total(a.distribution@) == BILLION
}

/// The truncated weight of one edge: the floor of ratio times stake.
pub open spec fn floor_weight(p: PerBill, stake: u64) -> int {
    (p.parts * stake) / (BILLION as int)
}

/// Sum of the truncated weights of an edge list.
pub open spec fn sum_floors(d: Seq<(u64, PerBill)>, stake: u64) -> int
    decreases d.len(),
{
    if d.len() == 0 {
        0
    } else {
        sum_floors(d.drop_last(), stake) + floor_weight(d.last().1, stake)
    }
}

/// The rounding residual: what truncation withheld from the voter's stake.
pub open spec fn spec_residual(d: Seq<(u64, PerBill)>, stake: u64) -> int {
    stake - sum_floors(d, stake)
}

/// The normalized edge list: each weight is the truncated product, and the
/// residual is distributed one unit at a time over the edges in declared
/// order, starting from the first.
pub open spec fn staked_edges(d: Seq<(u64, PerBill)>, stake: u64) -> Seq<(u64, u64)> {
    Seq::new(
        d.len(),
        |i: int|
            (
                d[i].0,
                (floor_weight(d[i].1, stake) + if i < spec_residual(d, stake) {
                    1int
                } else {
                    0int
                }) as u64,
            ),
    )
}

proof fn lemma_ratio_prefix(d: Seq<(u64, PerBill)>, i: int)
    requires
        0 <= i <= d.len(),
    ensures
        0 <= ratio_total(d.take(i)) <= ratio_total(d),
    decreases d.len() - i,
{
    lemma_ratio_nonneg(d.take(i));
    if i == d.len() {
        assert(d.take(i) =~= d);
    } else {
        assert(d.take(i + 1).drop_last() =~= d.take(i));
        assert(d.take(i + 1).last() == d[i]);
        lemma_ratio_prefix(d, i + 1);
    }
}

proof fn lemma_ratio_nonneg(d: Seq<(u64, PerBill)>)
    ensures
        0 <= ratio_total(d),
    decreases d.len(),
{
    if d.len() > 0 {
        lemma_ratio_nonneg(d.drop_last());
    }
}

/// Normalizes one voter's ratio assignment against its stake. Truncation
/// never loses stake: the returned weights sum to exactly the stake.
/// Fails with `EmptyVoterSet` on an assignment without edges and with
/// `ZeroStakeVoter` on a voter whose stake is zero.
pub fn normalize_one(a: &Assignment, stake: u64) -> (r: Result<StakedAssignment, ElectionError>)
    requires
        ratio_assignment_valid(*a),
    ensures
        r is Ok <==> (a.distribution@.len() > 0 && stake > 0),
        a.distribution@.len() == 0 ==> r == Err::<StakedAssignment, ElectionError>(
            ElectionError::EmptyVoterSet,
        ),
        a.distribution@.len() > 0 && stake == 0 ==> r == Err::<StakedAssignment, ElectionError>(
            ElectionError::ZeroStakeVoter,
        ),
        r is Ok ==> {
            let out = r->Ok_0;
            &&& out.who == a.who
            &&& out.distribution@ == staked_edges(a.distribution@, stake)
            &&& pair_sum(out.distribution@) == stake as int
        },
{
    if a.distribution.len() == 0 {
        return Err(ElectionError::EmptyVoterSet);
    }
    if stake == 0 {
        return Err(ElectionError::ZeroStakeVoter);
    }
    let ghost d = a.distribution@;
    let b: u128 = BILLION as u128;
    let mut floors: Vec<(u64, u64)> = Vec::new();
    let mut sumf: u64 = 0;
    let mut i: usize = 0;
    while i < a.distribution.len()
        invariant
            ratios_valid(d),
            ratio_total(d) == BILLION,
            d == a.distribution@,
            d.len() > 0,
            stake > 0,
            b == BILLION as int,
            i <= d.len(),
            floors@.len() == i,
            forall|j: int| 0 <= j < i ==> (#[trigger] floors@[j]).0 == d[j].0
                && floors@[j].1 as int == floor_weight(d[j].1, stake),
            sumf as int == sum_floors(d.take(i as int), stake),
            pair_sum(floors@) == sumf as int,
            BILLION as int * sum_floors(d.take(i as int), stake)
                <= stake as int * ratio_total(d.take(i as int)),
            BILLION as int * sum_floors(d.take(i as int), stake)
                >= stake as int * ratio_total(d.take(i as int)) - i * (BILLION as int - 1),
        decreases d.len() - i,
    {
        let (t, p) = a.distribution[i];
        proof {
            assert(p.parts as int * stake as int <= u32::MAX as int * u64::MAX as int)
                by (nonlinear_arith)
                requires
                    0 <= p.parts as int <= u32::MAX as int,
                    0 <= stake as int <= u64::MAX as int,
            ;
        }
        let prod: u128 = (p.parts as u128) * (stake as u128);
        let w128: u128 = prod / b;
        proof {
            lemma_fundamental_div_mod(prod as int, b as int);
            lemma_mod_division_less_than_divisor(prod as int, b as int);
            assert(prod as int <= BILLION as int * stake as int) by (nonlinear_arith)
                requires
                    prod as int == p.parts as int * stake as int,
                    0 <= p.parts as int <= BILLION as int,
                    stake as int >= 0,
            ;
            lemma_div_is_ordered(prod as int, BILLION as int * stake as int, b as int);
            lemma_div_multiples_vanish(stake as int, b as int);
            assert(w128 as int <= stake as int);
        }
        let w: u64 = w128 as u64;
        proof {
            assert(d.take(i as int + 1).drop_last() =~= d.take(i as int));
            assert(d.take(i as int + 1).last() == d[i as int]);
            lemma_ratio_prefix(d, i as int + 1);
            // One step of the two scaled bounds on the sum of floors.
            assert(stake as int * ratio_total(d.take(i as int + 1))
                == stake as int * ratio_total(d.take(i as int)) + prod as int) by (nonlinear_arith)
                requires
                    ratio_total(d.take(i as int + 1))
                        == ratio_total(d.take(i as int)) + d[i as int].1.parts as int,
                    prod as int == d[i as int].1.parts as int * stake as int,
            ;
            assert(stake as int * ratio_total(d.take(i as int + 1))
                <= stake as int * (BILLION as int)) by (nonlinear_arith)
                requires
                    ratio_total(d.take(i as int + 1)) <= BILLION as int,
                    stake as int >= 0,
            ;
            lemma_pair_sum_push(floors@, (t, w), 0, Seq::empty());
            assert(w as int == w128 as int);
            assert(BILLION as int * w128 as int >= prod as int - (BILLION as int - 1));
            assert(sum_floors(d.take(i as int + 1), stake)
                == sum_floors(d.take(i as int), stake) + floor_weight(d[i as int].1, stake));
            assert(floor_weight(d[i as int].1, stake) == w128 as int);
            assert(BILLION as int * sum_floors(d.take(i as int + 1), stake)
                == BILLION as int * sum_floors(d.take(i as int), stake)
                    + BILLION as int * w128 as int) by (nonlinear_arith)
                requires
                    sum_floors(d.take(i as int + 1), stake)
                        == sum_floors(d.take(i as int), stake) + w128 as int,
            ;
            assert(BILLION as int * sum_floors(d.take(i as int + 1), stake)
                >= stake as int * ratio_total(d.take(i as int + 1))
                    - (i as int + 1) * (BILLION as int - 1)) by (nonlinear_arith)
                requires
                    BILLION as int * sum_floors(d.take(i as int), stake)
                        >= stake as int * ratio_total(d.take(i as int))
                            - i * (BILLION as int - 1),
                    BILLION as int * w128 as int >= prod as int - (BILLION as int - 1),
                    stake as int * ratio_total(d.take(i as int + 1))
                        == stake as int * ratio_total(d.take(i as int)) + prod as int,
                    BILLION as int * sum_floors(d.take(i as int + 1), stake)
                        == BILLION as int * sum_floors(d.take(i as int), stake)
                            + BILLION as int * w128 as int,
            ;
        }
        assert(sumf + w <= stake);
        floors.push((t, w));
        sumf = sumf + w;
        i = i + 1;
    }
    proof {
        assert(d.take(d.len() as int) =~= d);
        assert(sumf as int == sum_floors(d, stake));
        assert(stake as int * ratio_total(d) == stake as int * BILLION as int);
        assert(BILLION as int * sumf as int <= stake as int * BILLION as int);
        assert(sumf <= stake);
    }
    let residual: u64 = stake - sumf;
    proof {
        // The residual is strictly smaller than the number of edges.
        assert(BILLION as int * sumf as int
            >= stake as int * BILLION as int - d.len() * (BILLION as int - 1));
        assert(BILLION as int * residual as int <= d.len() * (BILLION as int - 1));
        assert(residual < d.len()) by (nonlinear_arith)
            requires
                BILLION as int * residual as int <= d.len() * (BILLION as int - 1),
                residual as int >= 0,
                d.len() >= 1,
        ;
        assert(residual as int <= usize::MAX as int);
    }
    let k: usize = residual as usize;
    let ghost base = floors@;
    let mut i2: usize = 0;
    while i2 < k
        invariant
            k as int == residual as int,
            k < base.len(),
            base.len() == d.len(),
            i2 <= k,
            floors@.len() == base.len(),
            forall|j: int| 0 <= j < base.len() ==> #[trigger] floors@[j] == if j < i2 {
                (base[j].0, (base[j].1 + 1) as u64)
            } else {
                base[j]
            },
            pair_sum(base) == sumf as int,
            sumf as int + residual as int == stake as int,
            i2 <= residual,
            pair_sum(floors@) == sumf as int + i2,
        decreases k - i2,
    {
        let (t, w) = floors[i2];
        proof {
            lemma_pair_sum_term(base, i2 as int);
            assert(w as int <= sumf as int);
            assert(w as int + 1 <= stake as int);
        }
        let w1: u64 = w + 1;
        proof {
            lemma_pair_sum_update(floors@, i2 as int, (t, w1), 0);
        }
        floors.set(i2, (t, w1));
        i2 = i2 + 1;
    }
    proof {
        assert(floors@ =~= staked_edges(d, stake));
    }
    Ok(StakedAssignment { who: a.who, distribution: floors })
}

/// First-match lookup of a voter's stake in an association list.
pub open spec fn spec_lookup(stakes: Seq<(u64, u64)>, who: u64) -> Option<u64>
    decreases stakes.len(),
{
    if stakes.len() == 0 {
        None
    } else if stakes[0].0 == who {
        Some(stakes[0].1)
    } else {
        spec_lookup(stakes.drop_first(), who)
    }
}

/// Looks a voter's stake up, taking the first entry with a matching
/// identifier.
pub fn lookup_stake(stakes: &Vec<(u64, u64)>, who: u64) -> (r: Option<u64>)
    ensures
        r == spec_lookup(stakes@, who),
{
    let mut i: usize = 0;
    proof {
        assert(stakes@.skip(0) =~= stakes@);
    }
    while i < stakes.len()
        invariant
            i <= stakes@.len(),
            spec_lookup(stakes@, who) == spec_lookup(stakes@.skip(i as int), who),
        decreases stakes@.len() - i,
    {
        let (v, s) = stakes[i];
        proof {
            assert(stakes@.skip(i as int)[0] == stakes@[i as int]);
            assert(stakes@.skip(i as int).drop_first() =~= stakes@.skip(i as int + 1));
        }
        if v == who {
            return Some(s);
        }
        i = i + 1;
    }
    proof {
        assert(stakes@.skip(stakes@.len() as int) =~= Seq::<(u64, u64)>::empty());
    }
    None
}

/// What standing in the way of normalizing one assignment: the first
/// applicable failure, or nothing. A missing stake entry is found first,
/// then an assignment without edges, then a zero stake.
pub open spec fn spec_check(a: Assignment, stakes: Seq<(u64, u64)>) -> Option<ElectionError> {
    match spec_lookup(stakes, a.who) {
        None => Some(ElectionError::UnknownVoterStake),
        Some(stake) => {
            if a.distribution@.len() == 0 {
                Some(ElectionError::EmptyVoterSet)
            } else if stake == 0 {
                Some(ElectionError::ZeroStakeVoter)
            } else {
                None
            }
        },
    }
}

/// Normalizes a batch of ratio assignments against a stake lookup list.
/// Succeeds exactly when every assignment has a known, positive stake and at
/// least one edge; the first failing assignment, in input order, decides the
/// error. On success every voter's weights sum to exactly its stake.
pub fn normalize(assignments: &Vec<Assignment>, stakes: &Vec<(u64, u64)>) -> (r: Result<
    Vec<StakedAssignment>,
    ElectionError,
>)
    requires
        forall|i: int| 0 <= i < assignments@.len()
            ==> ratio_assignment_valid(#[trigger] assignments@[i]),
    ensures
        r is Ok <==> forall|i: int| 0 <= i < assignments@.len()
            ==> spec_check(#[trigger] assignments@[i], stakes@) is None,
        r is Ok ==> {
            let out = r->Ok_0;
            &&& out@.len() == assignments@.len()
            &&& forall|i: int| 0 <= i < assignments@.len() ==> {
                let a = #[trigger] assignments@[i];
                let stake = spec_lookup(stakes@, a.who)->Some_0;
                &&& out@[i].who == a.who
                &&& out@[i].distribution@ == staked_edges(a.distribution@, stake)
                &&& pair_sum(out@[i].distribution@) == stake as int
            }
        },
        r is Err ==> exists|i: int| 0 <= i < assignments@.len()
            && Some(r->Err_0) == spec_check(#[trigger] assignments@[i], stakes@)
            && forall|j: int| 0 <= j < i ==> spec_check(#[trigger] assignments@[j], stakes@) is None,
{
    let mut out: Vec<StakedAssignment> = Vec::new();
    let mut i: usize = 0;
    while i < assignments.len()
        invariant
            forall|ii: int| 0 <= ii < assignments@.len()
                ==> ratio_assignment_valid(#[trigger] assignments@[ii]),
            i <= assignments@.len(),
            out@.len() == i,
            forall|j: int| 0 <= j < i
                ==> spec_check(#[trigger] assignments@[j], stakes@) is None,
            forall|j: int| 0 <= j < i ==> {
                let a = #[trigger] assignments@[j];
                let stake = spec_lookup(stakes@, a.who)->Some_0;
                &&& out@[j].who == a.who
                &&& out@[j].distribution@ == staked_edges(a.distribution@, stake)
                &&& pair_sum(out@[j].distribution@) == stake as int
            },
        decreases assignments@.len() - i,
    {
        let a = &assignments[i];
        let stake = match lookup_stake(stakes, a.who) {
            Some(s) => s,
            None => {
                return Err(ElectionError::UnknownVoterStake);
            },
        };
        match normalize_one(a, stake) {
            Ok(sa) => {
                out.push(sa);
            },
            Err(e) => {
                return Err(e);
            },
        }
        i = i + 1;
    }
    Ok(out)
}

} // verus!
