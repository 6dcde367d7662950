//! Scoring of a support map and comparison of two scores under a tolerance.

use vstd::prelude::*;
use crate::types::{Support, Score, PerBill, ElectionError};
use crate::BILLION;
use vstd::arithmetic::div_mod::{
    lemma_fundamental_div_mod, lemma_div_is_ordered, lemma_div_multiples_vanish,
    lemma_hoist_over_denominator, lemma_mod_division_less_than_divisor,
};

verus! {

/// The minimal total among the entries of a support map; zero when the map
/// is empty.
pub open spec fn map_min(m: Seq<(u64, Support)>) -> int
    decreases m.len(),
{
    if m.len() == 0 {
        0
    } else if m.len() == 1 {
        m.last().1.total as int
    } else {
        let rest = map_min(m.drop_last());
        if m.last().1.total < rest {
            m.last().1.total as int
        } else {
            rest
        }
    }
}

/// The sum of the totals of a support map.
pub open spec fn map_sum(m: Seq<(u64, Support)>) -> int
    decreases m.len(),
{
    if m.len() == 0 {
        0
    } else {
        map_sum(m.drop_last()) + m.last().1.total as int
    }
}

/// The sum of the squared totals of a support map.
pub open spec fn map_sq(m: Seq<(u64, Support)>) -> int
    decreases m.len(),
{
    if m.len() == 0 {
        0
    } else {
        map_sq(m.drop_last()) + m.last().1.total as int * m.last().1.total as int
    }
}

/// Both accumulated components of the score stay representable.
pub open spec fn score_fits(m: Seq<(u64, Support)>) -> bool {
    map_sum(m) <= u128::MAX && map_sq(m) <= u128::MAX
}

/// The score of a support map, meaningful whenever `score_fits` holds.
pub open spec fn spec_score(m: Seq<(u64, Support)>) -> Score {
    Score {
        min_support: map_min(m) as u128,
        sum_squares: map_sq(m) as u128,
        sum_support: map_sum(m) as u128,
    }
}

proof fn lemma_map_take_step(m: Seq<(u64, Support)>, i: int)
    requires
        0 <= i < m.len(),
    ensures
        map_sum(m.take(i + 1)) == map_sum(m.take(i)) + m[i].1.total as int,
        map_sq(m.take(i + 1)) == map_sq(m.take(i)) + m[i].1.total as int * m[i].1.total as int,
        map_min(m.take(i + 1)) == if i == 0 {
            m[i].1.total as int
        } else if (m[i].1.total as int) < map_min(m.take(i)) {
            m[i].1.total as int
        } else {
            map_min(m.take(i))
        },
{
    assert(m.take(i + 1).drop_last() =~= m.take(i));
    assert(m.take(i + 1).last() == m[i]);
}

proof fn lemma_map_prefix_le(m: Seq<(u64, Support)>, i: int)
    requires
        0 <= i <= m.len(),
    ensures
        map_sum(m.take(i)) <= map_sum(m),
        map_sq(m.take(i)) <= map_sq(m),
        0 <= map_sum(m.take(i)),
        0 <= map_sq(m.take(i)),
    decreases m.len() - i,
{
    lemma_map_nonneg(m.take(i));
    if i == m.len() {
        assert(m.take(i) =~= m);
    } else {
        lemma_map_take_step(m, i);
        assert(m[i].1.total as int * m[i].1.total as int >= 0) by (nonlinear_arith);
        lemma_map_prefix_le(m, i + 1);
    }
}

proof fn lemma_map_nonneg(m: Seq<(u64, Support)>)
    ensures
        0 <= map_sum(m),
        0 <= map_sq(m),
    decreases m.len(),
{
    if m.len() > 0 {
        lemma_map_nonneg(m.drop_last());
        let t = m.last().1.total as int;
        assert(t * t >= 0) by (nonlinear_arith);
    }
}

/// A support map aligned with a winner list (one entry per winner, carrying
/// that winner's support) has the winner-level aggregates as its own.
pub proof fn lemma_map_matches(
    winners: Seq<u64>,
    s: Seq<crate::types::StakedAssignment>,
    m: Seq<(u64, Support)>,
)
    requires
        m.len() == winners.len(),
        forall|i: int| 0 <= i < winners.len()
            ==> (#[trigger] m[i]).1.total as int == crate::sums::support_of(s, winners[i]),
    ensures
        map_min(m) == crate::sums::min_support_over(winners, s),
        map_sum(m) == crate::sums::sum_supports_over(winners, s),
        map_sq(m) == crate::sums::sum_squares_over(winners, s),
    decreases winners.len(),
{
    if winners.len() > 0 {
        assert(m.last() == m[m.len() - 1]);
        lemma_map_matches(winners.drop_last(), s, m.drop_last());
    }
}

/// Reduces a support map to its score: the minimal support across winners,
/// the sum of squared supports, and the sum of supports. Fails with
/// `ArithmeticOverflow` exactly when one of the two sums exceeds the
/// representable range; nothing is ever silently saturated.
pub fn evaluate_support(m: &Vec<(u64, Support)>) -> (r: Result<Score, ElectionError>)
    ensures
        r is Ok <==> score_fits(m@),
        r is Ok ==> r->Ok_0 == spec_score(m@),
        r is Err ==> r->Err_0 == ElectionError::ArithmeticOverflow,
{
    let mut min: u128 = 0;
    let mut sum: u128 = 0;
    let mut sq: u128 = 0;
    let mut i: usize = 0;
    while i < m.len()
        invariant
            i <= m@.len(),
            min as int == map_min(m@.take(i as int)),
            sum as int == map_sum(m@.take(i as int)),
            sq as int == map_sq(m@.take(i as int)),
        decreases m@.len() - i,
    {
        let t = m[i].1.total;
        proof {
            lemma_map_take_step(m@, i as int);
        }
        let t2 = match t.checked_mul(t) {
            Some(v) => v,
            None => {
                proof {
                    lemma_map_prefix_le(m@, i as int + 1);
                    lemma_map_nonneg(m@.take(i as int));
                }
                return Err(ElectionError::ArithmeticOverflow);
            },
        };
        let new_sq = match sq.checked_add(t2) {
            Some(v) => v,
            None => {
                proof {
                    lemma_map_prefix_le(m@, i as int + 1);
                }
                return Err(ElectionError::ArithmeticOverflow);
            },
        };
        let new_sum = match sum.checked_add(t) {
            Some(v) => v,
            None => {
                proof {
                    lemma_map_prefix_le(m@, i as int + 1);
                }
                return Err(ElectionError::ArithmeticOverflow);
            },
        };
        if i == 0 || t < min {
            min = t;
        }
        sum = new_sum;
        sq = new_sq;
        i = i + 1;
    }
    proof {
        assert(m@.take(i as int) =~= m@);
    }
    Ok(Score { min_support: min, sum_squares: sq, sum_support: sum })
}

/// Two quantities are within tolerance when their absolute difference,
/// relative to the larger of the two, does not exceed the tolerance ratio:
/// `|x - y| * BILLION <= tolerance_parts * max(x, y)`.
pub open spec fn spec_within_tol(x: int, y: int, tol: PerBill) -> bool {
    (if x >= y {
        (x - y) * BILLION <= tol.parts * x
    } else {
        (y - x) * BILLION <= tol.parts * y
    })
}

/// The first score is a genuine improvement over the second: lexicographic
/// over (minimal support: higher is better; sum of squares: lower is better;
/// sum of supports: higher is better), where components within tolerance of
/// one another count as equal.
pub open spec fn spec_is_better(a: Score, b: Score, tol: PerBill) -> bool {
    if !spec_within_tol(a.min_support as int, b.min_support as int, tol) {
        a.min_support > b.min_support
    } else if !spec_within_tol(a.sum_squares as int, b.sum_squares as int, tol) {
        a.sum_squares < b.sum_squares
    } else if !spec_within_tol(a.sum_support as int, b.sum_support as int, tol) {
        a.sum_support > b.sum_support
    } else {
        false
    }
}

/// `d <= x / b` is the integer form of `d * b <= x`.
proof fn lemma_le_floor_iff(d: int, x: int, b: int)
    requires
        b > 0,
        d >= 0,
        x >= 0,
    ensures
        (d <= x / b) <==> (d * b <= x),
{
    if d * b <= x {
        lemma_div_is_ordered(d * b, x, b);
        lemma_div_multiples_vanish(d, b);
        assert(d * b == b * d) by (nonlinear_arith);
    }
    if d <= x / b {
        lemma_fundamental_div_mod(x, b);
        lemma_mod_division_less_than_divisor(x, b);
        assert(d * b <= (x / b) * b) by (nonlinear_arith)
            requires
                d <= x / b,
                b > 0,
        ;
        assert((x / b) * b <= x) by (nonlinear_arith)
            requires
                x == b * (x / b) + x % b,
                x % b >= 0,
        ;
    }
}

/// Exact floor of `t * m / BILLION` without overflowing the working type.
fn mul_billion_floor(t: u32, m: u128) -> (r: u128)
    requires
        t <= BILLION,
    ensures
        r as int == (t as int * m as int) / (BILLION as int),
{
    let b: u128 = BILLION as u128;
    let q: u128 = m / b;
    let rem: u128 = m % b;
    proof {
        lemma_fundamental_div_mod(m as int, b as int);
        lemma_mod_division_less_than_divisor(m as int, b as int);
        assert(t as int * q as int <= b as int * q as int) by (nonlinear_arith)
            requires
                0 <= t as int <= b as int,
                q as int >= 0,
        ;
        assert(b as int * q as int <= m as int) by {
            assert(m as int == b as int * q as int + rem as int);
        }
        assert(t as int * rem as int <= b as int * rem as int) by (nonlinear_arith)
            requires
                0 <= t as int <= b as int,
                rem as int >= 0,
        ;
    }
    let part1: u128 = (t as u128) * q;
    let tr: u128 = (t as u128) * rem;
    let part3: u128 = tr / b;
    proof {
        lemma_div_is_ordered(tr as int, b as int * rem as int, b as int);
        lemma_div_multiples_vanish(rem as int, b as int);
        assert(part3 as int <= rem as int);
        assert(t as int * m as int == (t as int * q as int) * b as int + t as int * rem as int)
            by (nonlinear_arith)
            requires
                m as int == b as int * q as int + rem as int,
        ;
        lemma_hoist_over_denominator(tr as int, t as int * q as int, b as nat);
    }
    part1 + part3
}

/// Whether `x` and `y` are within the relative tolerance of one another.
pub fn within_tol(x: u128, y: u128, tol: PerBill) -> (r: bool)
    requires
        tol.is_valid(),
    ensures
        r == spec_within_tol(x as int, y as int, tol),
{
    let hi: u128 = if x >= y { x } else { y };
    let lo: u128 = if x >= y { y } else { x };
    let diff: u128 = hi - lo;
    let thr: u128 = mul_billion_floor(tol.parts, hi);
    proof {
        lemma_le_floor_iff(diff as int, tol.parts as int * hi as int, BILLION as int);
    }
    diff <= thr
}

/// Decides whether score `a` is a meaningful improvement over score `b`
/// under the given tolerance.
pub fn is_better(a: Score, b: Score, tol: PerBill) -> (r: bool)
    requires
        tol.is_valid(),
    ensures
        r == spec_is_better(a, b, tol),
{
    if !within_tol(a.min_support, b.min_support, tol) {
        a.min_support > b.min_support
    } else if !within_tol(a.sum_squares, b.sum_squares, tol) {
        a.sum_squares < b.sum_squares
    } else if !within_tol(a.sum_support, b.sum_support, tol) {
        a.sum_support > b.sum_support
    } else {
        false
    }
}

} // verus!
