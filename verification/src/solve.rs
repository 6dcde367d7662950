//! The sequential election solver: greedy winner selection with a
//! deterministic tie-break, followed by an initial per-voter stake
//! assignment and the optional balancing post-process.

use vstd::prelude::*;
use crate::types::{
    Voter, Assignment, StakedAssignment, ElectionResult, ElectionError, BalancingConfig, PerBill,
};
use crate::sums::{pair_sum, total_all, min_support_over, sum_supports_over, sum_squares_over};
use crate::normalize::{normalize_one, ratio_total, ratios_valid, staked_edges};
use crate::balance::{balance, targets_in, same_shape};
use crate::BILLION;
use vstd::arithmetic::div_mod::{
    lemma_fundamental_div_mod, lemma_div_nonincreasing, lemma_div_pos_is_pos,
    lemma_mod_division_less_than_divisor,
};
use vstd::pervasive::unreached;

verus! {

/// Total stake of a voter list.
pub open spec fn total_stake(voters: Seq<Voter>) -> int
    decreases voters.len(),
{
    if voters.len() == 0 {
        0
    } else {
        total_stake(voters.drop_last()) + voters.last().stake as int
    }
}

/// How many of a voter's edges already point at elected winners.
pub open spec fn count_in(edges: Seq<u64>, winners: Seq<u64>) -> int
    decreases edges.len(),
{
    if edges.len() == 0 {
        0
    } else {
        count_in(edges.drop_last(), winners) + if winners.contains(edges.last()) {
            1int
        } else {
            0int
        }
    }
}

/// The stake one voter can still put behind candidate `c`: its stake spread
/// over the winners it already backs plus this prospective one. A candidate
/// the voter does not accept receives nothing.
pub open spec fn prospective(v: Voter, winners: Seq<u64>, c: u64) -> int {
    if v.edges@.contains(c) {
        v.stake as int / (1 + count_in(v.edges@, winners))
    } else {
        0
    }
}

/// The prospective support of candidate `c`: what all voters together can
/// still put behind it, given the winners elected so far. The candidate
/// with the highest prospective support carries the least marginal load.
pub open spec fn prospective_support(voters: Seq<Voter>, winners: Seq<u64>, c: u64) -> int
    decreases voters.len(),
{
    if voters.len() == 0 {
        0
    } else {
        prospective_support(voters.drop_last(), winners, c) + prospective(voters.last(), winners, c)
    }
}

/// The index of the candidate elected from `rem`: the minimal marginal
/// load, i.e. the highest prospective support, with ties broken toward the
/// lowest candidate identifier.
pub open spec fn best_index(rem: Seq<u64>, voters: Seq<Voter>, winners: Seq<u64>) -> int
    recommends
        rem.len() > 0,
    decreases rem.len(),
{
    if rem.len() <= 1 {
        0
    } else {
        let bi = best_index(rem.drop_last(), voters, winners);
        let bs = prospective_support(voters, winners, rem[bi]);
        let cs = prospective_support(voters, winners, rem.last());
        if cs > bs || (cs == bs && rem.last() < rem[bi]) {
            rem.len() - 1
        } else {
            bi
        }
    }
}

/// The `(remaining, winners)` state after the given number of election
/// rounds; a round with no remaining candidate changes nothing.
pub open spec fn elect_state(cands: Seq<u64>, voters: Seq<Voter>, rounds: nat) -> (Seq<u64>, Seq<u64>)
    decreases rounds,
{
    if rounds == 0 {
        (cands, Seq::empty())
    } else {
        let (rem, win) = elect_state(cands, voters, (rounds - 1) as nat);
        if rem.len() == 0 {
            (rem, win)
        } else {
            let bi = best_index(rem, voters, win);
            (rem.remove(bi), win.push(rem[bi]))
        }
    }
}

/// The winners after `k` rounds of greedy selection.
pub open spec fn spec_winners(cands: Seq<u64>, voters: Seq<Voter>, k: nat) -> Seq<u64> {
    elect_state(cands, voters, k).1
}

pub proof fn lemma_count_in_le(edges: Seq<u64>, winners: Seq<u64>)
    ensures
        0 <= count_in(edges, winners) <= edges.len(),
    decreases edges.len(),
{
    if edges.len() > 0 {
        lemma_count_in_le(edges.drop_last(), winners);
    }
}

pub proof fn lemma_prospective_bounds(v: Voter, winners: Seq<u64>, c: u64)
    ensures
        0 <= prospective(v, winners, c) <= v.stake as int,
{
    lemma_count_in_le(v.edges@, winners);
    if v.edges@.contains(c) {
        lemma_div_pos_is_pos(v.stake as int, 1 + count_in(v.edges@, winners));
        lemma_div_nonincreasing(v.stake as int, 1 + count_in(v.edges@, winners));
    }
}

proof fn lemma_prospective_take_step(voters: Seq<Voter>, winners: Seq<u64>, c: u64, i: int)
    requires
        0 <= i < voters.len(),
    ensures
        prospective_support(voters.take(i + 1), winners, c)
            == prospective_support(voters.take(i), winners, c)
                + prospective(voters[i], winners, c),
        total_stake(voters.take(i + 1)) == total_stake(voters.take(i)) + voters[i].stake as int,
{
    assert(voters.take(i + 1).drop_last() =~= voters.take(i));
    assert(voters.take(i + 1).last() == voters[i]);
}

proof fn lemma_prospective_prefix_le(voters: Seq<Voter>, winners: Seq<u64>, c: u64, i: int)
    requires
        0 <= i <= voters.len(),
    ensures
        0 <= prospective_support(voters.take(i), winners, c),
        prospective_support(voters.take(i), winners, c) <= total_stake(voters.take(i)),
        total_stake(voters.take(i)) <= total_stake(voters),
    decreases voters.len() - i, i,
{
    if i == voters.len() {
        assert(voters.take(i) =~= voters);
        lemma_prospective_le_stake(voters.take(i), winners, c);
    } else {
        lemma_prospective_take_step(voters, winners, c, i);
        lemma_prospective_bounds(voters[i], winners, c);
        lemma_prospective_prefix_le(voters, winners, c, i + 1);
        lemma_prospective_le_stake(voters.take(i), winners, c);
    }
}

proof fn lemma_prospective_le_stake(voters: Seq<Voter>, winners: Seq<u64>, c: u64)
    ensures
        0 <= prospective_support(voters, winners, c) <= total_stake(voters),
        0 <= total_stake(voters),
    decreases voters.len(),
{
    if voters.len() > 0 {
        lemma_prospective_le_stake(voters.drop_last(), winners, c);
        lemma_prospective_bounds(voters.last(), winners, c);
    }
}

/// The elected index carries the maximal prospective support, and among the
/// candidates tied at that support the lowest identifier.
pub proof fn lemma_best_index_props(rem: Seq<u64>, voters: Seq<Voter>, winners: Seq<u64>)
    requires
        rem.len() > 0,
    ensures
        0 <= best_index(rem, voters, winners) < rem.len(),
        forall|j: int| 0 <= j < rem.len()
            ==> prospective_support(voters, winners, #[trigger] rem[j])
                <= prospective_support(voters, winners, rem[best_index(rem, voters, winners)]),
        forall|j: int| 0 <= j < rem.len()
            && prospective_support(voters, winners, #[trigger] rem[j])
                == prospective_support(voters, winners, rem[best_index(rem, voters, winners)])
            ==> rem[best_index(rem, voters, winners)] <= rem[j],
    decreases rem.len(),
{
    if rem.len() > 1 {
        lemma_best_index_props(rem.drop_last(), voters, winners);
        let bi0 = best_index(rem.drop_last(), voters, winners);
        let b = best_index(rem, voters, winners);
        assert forall|j: int| 0 <= j < rem.len() - 1
            implies #[trigger] rem.drop_last()[j] == rem[j] by {}
        assert(rem.last() == rem[rem.len() - 1]);
        assert forall|j: int| 0 <= j < rem.len()
            implies prospective_support(voters, winners, #[trigger] rem[j])
                <= prospective_support(voters, winners, rem[b]) by {
            if j < rem.len() - 1 {
                assert(prospective_support(voters, winners, rem.drop_last()[j])
                    <= prospective_support(voters, winners, rem.drop_last()[bi0]));
            }
        }
        assert forall|j: int|
            0 <= j < rem.len() && prospective_support(voters, winners, #[trigger] rem[j])
                == prospective_support(voters, winners, rem[b])
                implies rem[b] <= rem[j] by {
            if j < rem.len() - 1 {
                assert(rem.drop_last()[j] == rem[j]);
                if prospective_support(voters, winners, rem.drop_last()[j])
                    == prospective_support(voters, winners, rem.drop_last()[bi0]) {
                    assert(rem[bi0] <= rem[j]);
                }
            }
        }
    }
}

/// The state is frozen once the candidates run out.
proof fn lemma_elect_stall(cands: Seq<u64>, voters: Seq<Voter>, r: nat, k: nat)
    requires
        r <= k,
        elect_state(cands, voters, r).0.len() == 0,
    ensures
        elect_state(cands, voters, k) == elect_state(cands, voters, r),
    decreases k - r,
{
    if k > r {
        lemma_elect_stall(cands, voters, r, (k - 1) as nat);
    }
}

/// Structural facts about the election state: no candidate appears twice,
/// winners come from the candidate list and leave the remaining pool, and
/// as many rounds elect as candidates allow.
pub proof fn lemma_elect_state_props(cands: Seq<u64>, voters: Seq<Voter>, r: nat)
    requires
        cands.no_duplicates(),
    ensures
        ({
            let (rem, win) = elect_state(cands, voters, r);
            &&& rem.no_duplicates()
            &&& win.no_duplicates()
            &&& win.len() == if r <= cands.len() { r as int } else { cands.len() as int }
            &&& rem.len() == cands.len() - win.len()
            &&& forall|j: int| 0 <= j < win.len() ==> cands.contains(#[trigger] win[j])
            &&& forall|j: int| 0 <= j < rem.len() ==> cands.contains(#[trigger] rem[j])
            &&& forall|j: int, j2: int| 0 <= j < win.len() && 0 <= j2 < rem.len()
                ==> win[j] != rem[j2]
        }),
    decreases r,
{
    if r > 0 {
        lemma_elect_state_props(cands, voters, (r - 1) as nat);
        let (rem, win) = elect_state(cands, voters, (r - 1) as nat);
        if rem.len() > 0 {
            lemma_best_index_props(rem, voters, win);
            let bi = best_index(rem, voters, win);
            let b = rem[bi];
            rem.remove_ensures(bi);
            let rem2 = rem.remove(bi);
            let win2 = win.push(b);
            assert(cands.contains(b));
            assert(rem2.no_duplicates()) by {
                assert forall|i: int, j: int|
                    0 <= i < rem2.len() && 0 <= j < rem2.len() && i != j
                        implies rem2[i] != rem2[j] by {
                    let i0 = if i < bi { i } else { i + 1 };
                    let j0 = if j < bi { j } else { j + 1 };
                    assert(rem2[i] == rem[i0]);
                    assert(rem2[j] == rem[j0]);
                }
            }
            assert(win2.no_duplicates()) by {
                assert forall|i: int, j: int|
                    0 <= i < win2.len() && 0 <= j < win2.len() && i != j
                        implies win2[i] != win2[j] by {
                    if i < win.len() && j < win.len() {
                        assert(win[i] != win[j]);
                    } else if i < win.len() {
                        assert(win2[j] == b);
                        assert(win[i] != rem[bi]);
                    } else {
                        assert(win2[i] == b);
                        assert(win[j] != rem[bi]);
                    }
                }
            }
            assert forall|j: int| 0 <= j < rem2.len() implies cands.contains(#[trigger] rem2[j]) by {
                let j0 = if j < bi { j } else { j + 1 };
                assert(rem2[j] == rem[j0]);
            }
            assert forall|j: int, j2: int| 0 <= j < win2.len() && 0 <= j2 < rem2.len()
                implies win2[j] != rem2[j2] by {
                let j0 = if j2 < bi { j2 } else { j2 + 1 };
                assert(rem2[j2] == rem[j0]);
                if j < win.len() {
                    assert(win[j] != rem[j0]);
                } else {
                    assert(win2[j] == rem[bi]);
                    assert(rem[bi] != rem[j0]);
                }
            }
        }
    }
}

/// Whether a value occurs in a vector.
fn contains_u64(v: &Vec<u64>, x: u64) -> (r: bool)
    ensures
        r == v@.contains(x),
{
    let mut i: usize = 0;
    while i < v.len()
        invariant
            i <= v@.len(),
            forall|j: int| 0 <= j < i ==> v@[j] != x,
        decreases v@.len() - i,
    {
        if v[i] == x {
            return true;
        }
        i = i + 1;
    }
    false
}

proof fn lemma_count_in_push(edges: Seq<u64>, x: u64, winners: Seq<u64>)
    ensures
        count_in(edges.push(x), winners) == count_in(edges, winners) + if winners.contains(x) {
            1int
        } else {
            0int
        },
{
    assert(edges.push(x).drop_last() =~= edges);
}

/// Counts a voter's edges that point at already-elected winners.
fn count_edges_in(edges: &Vec<u64>, winners: &Vec<u64>) -> (r: usize)
    ensures
        r as int == count_in(edges@, winners@),
{
    let mut cnt: usize = 0;
    let mut i: usize = 0;
    while i < edges.len()
        invariant
            i <= edges@.len(),
            cnt <= i,
            cnt as int == count_in(edges@.take(i as int), winners@),
        decreases edges@.len() - i,
    {
        proof {
            assert(edges@.take(i as int + 1) =~= edges@.take(i as int).push(edges@[i as int]));
            lemma_count_in_push(edges@.take(i as int), edges@[i as int], winners@);
        }
        if contains_u64(winners, edges[i]) {
            cnt = cnt + 1;
        }
        i = i + 1;
    }
    proof {
        assert(edges@.take(edges@.len() as int) =~= edges@);
    }
    cnt
}

/// The prospective support one voter can still put behind candidate `c`.
fn prospective_exec(v: &Voter, winners: &Vec<u64>, c: u64) -> (r: u64)
    ensures
        r as int == prospective(*v, winners@, c),
        r <= v.stake,
{
    proof {
        lemma_prospective_bounds(*v, winners@, c);
    }
    if contains_u64(&v.edges, c) {
        let cnt = count_edges_in(&v.edges, winners);
        let denom: u128 = 1 + cnt as u128;
        let q: u128 = (v.stake as u128) / denom;
        q as u64
    } else {
        0
    }
}

/// The prospective support of candidate `c` over all voters.
fn candidate_score(voters: &Vec<Voter>, winners: &Vec<u64>, c: u64) -> (r: u128)
    requires
        total_stake(voters@) <= u64::MAX,
    ensures
        r as int == prospective_support(voters@, winners@, c),
{
    let mut acc: u128 = 0;
    let mut i: usize = 0;
    while i < voters.len()
        invariant
            total_stake(voters@) <= u64::MAX,
            i <= voters@.len(),
            acc as int == prospective_support(voters@.take(i as int), winners@, c),
        decreases voters@.len() - i,
    {
        proof {
            lemma_prospective_take_step(voters@, winners@, c, i as int);
            lemma_prospective_prefix_le(voters@, winners@, c, i as int + 1);
            lemma_prospective_bounds(voters@[i as int], winners@, c);
        }
        let p = prospective_exec(&voters[i], winners, c);
        acc = acc + p as u128;
        i = i + 1;
    }
    proof {
        assert(voters@.take(voters@.len() as int) =~= voters@);
    }
    acc
}

/// Greedy selection of up to `winner_count` winners: each round elects the
/// remaining candidate with the highest prospective support, breaking ties
/// toward the lowest identifier, and removes it from the pool.
#[verifier::rlimit(80)]
fn elect(winner_count: usize, candidates: &Vec<u64>, voters: &Vec<Voter>) -> (w: Vec<u64>)
    requires
        candidates@.no_duplicates(),
        total_stake(voters@) <= u64::MAX,
    ensures
        w@ == spec_winners(candidates@, voters@, winner_count as nat),
        w@.no_duplicates(),
        w@.len() == if winner_count <= candidates@.len() {
            winner_count as int
        } else {
            candidates@.len() as int
        },
        forall|j: int| 0 <= j < w@.len() ==> candidates@.contains(#[trigger] w@[j]),
{
    let mut remaining: Vec<u64> = Vec::new();
    let mut ci: usize = 0;
    while ci < candidates.len()
        invariant
            ci <= candidates@.len(),
            remaining@ == candidates@.take(ci as int),
        decreases candidates@.len() - ci,
    {
        let c = candidates[ci];
        remaining.push(c);
        proof {
            assert(candidates@.take(ci as int + 1)
                =~= candidates@.take(ci as int).push(candidates@[ci as int]));
        }
        ci = ci + 1;
    }
    proof {
        assert(candidates@.take(candidates@.len() as int) =~= candidates@);
    }
    let mut winners: Vec<u64> = Vec::new();
    let mut round: usize = 0;
    while round < winner_count && remaining.len() > 0
        invariant
            candidates@.no_duplicates(),
            total_stake(voters@) <= u64::MAX,
            round <= winner_count,
            remaining@ == elect_state(candidates@, voters@, round as nat).0,
            winners@ == elect_state(candidates@, voters@, round as nat).1,
        decreases winner_count - round,
    {
        let ghost rem0 = remaining@;
        let ghost win0 = winners@;
        let mut bi: usize = 0;
        let mut bs: u128 = candidate_score(voters, &winners, remaining[0]);
        let mut k: usize = 1;
        proof {
            assert(rem0.take(1).len() == 1);
            assert(rem0.take(1)[0] == rem0[0]);
        }
        while k < remaining.len()
            invariant
                total_stake(voters@) <= u64::MAX,
                remaining@ == rem0,
                winners@ == win0,
                rem0.len() > 0,
                1 <= k <= rem0.len(),
                bi < k,
                bi as int == best_index(rem0.take(k as int), voters@, win0),
                bs as int == prospective_support(voters@, win0, rem0[bi as int]),
            decreases rem0.len() - k,
        {
            let cs = candidate_score(voters, &winners, remaining[k]);
            proof {
                assert(rem0.take(k as int + 1).drop_last() =~= rem0.take(k as int));
                assert(rem0.take(k as int + 1).last() == rem0[k as int]);
                assert forall|j: int| 0 <= j < k implies #[trigger] rem0.take(
                    k as int + 1,
                )[j] == rem0.take(k as int)[j] by {}
            }
            if cs > bs || (cs == bs && remaining[k] < remaining[bi]) {
                bi = k;
                bs = cs;
            }
            k = k + 1;
        }
        proof {
            assert(rem0.take(rem0.len() as int) =~= rem0);
        }
        let elected = remaining[bi];
        winners.push(elected);
        remaining.remove(bi);
        round = round + 1;
        proof {
            assert(elect_state(candidates@, voters@, round as nat)
                == (rem0.remove(bi as int), win0.push(elected)));
        }
    }
    proof {
        if round < winner_count {
            lemma_elect_stall(candidates@, voters@, round as nat, winner_count as nat);
        }
        lemma_elect_state_props(candidates@, voters@, winner_count as nat);
    }
    winners
}

/// The edges of a voter that point at winners, in declared edge order.
pub open spec fn kept(edges: Seq<u64>, winners: Seq<u64>) -> Seq<u64>
    decreases edges.len(),
{
    if edges.len() == 0 {
        Seq::empty()
    } else {
        kept(edges.drop_last(), winners) + if winners.contains(edges.last()) {
            seq![edges.last()]
        } else {
            Seq::empty()
        }
    }
}

pub proof fn lemma_kept_in(edges: Seq<u64>, winners: Seq<u64>)
    ensures
        forall|j: int| 0 <= j < kept(edges, winners).len()
            ==> winners.contains(#[trigger] kept(edges, winners)[j]),
        kept(edges, winners).len() <= edges.len(),
    decreases edges.len(),
{
    if edges.len() > 0 {
        lemma_kept_in(edges.drop_last(), winners);
    }
}

proof fn lemma_kept_push(edges: Seq<u64>, x: u64, winners: Seq<u64>)
    ensures
        kept(edges.push(x), winners) == kept(edges, winners) + if winners.contains(x) {
            seq![x]
        } else {
            Seq::<u64>::empty()
        },
{
    assert(edges.push(x).drop_last() =~= edges);
}

/// The equal split of one whole over the given edges: every edge receives
/// the truncated equal share, and the division residue goes to the first.
pub open spec fn equal_split(edges: Seq<u64>) -> Seq<(u64, PerBill)> {
    let q = BILLION as int / edges.len() as int;
    let rr = BILLION as int % edges.len() as int;
    Seq::new(
        edges.len(),
        |i: int| (edges[i], PerBill { parts: (q + if i == 0 { rr } else { 0int }) as u32 }),
    )
}

proof fn lemma_ratio_const(s: Seq<(u64, PerBill)>, q: int)
    requires
        s.len() >= 1,
        forall|i: int| 1 <= i < s.len() ==> (#[trigger] s[i]).1.parts as int == q,
    ensures
        ratio_total(s) == s[0].1.parts + (s.len() - 1) * q,
    decreases s.len(),
{
    if s.len() == 1 {
        assert(s.drop_last().len() == 0);
        assert(ratio_total(s.drop_last()) == 0);
        assert(s.last() == s[0]);
        assert(ratio_total(s) == s[0].1.parts as int);
        assert((s.len() - 1) * q == 0) by (nonlinear_arith)
            requires
                s.len() == 1,
        ;
    } else {
        assert forall|i: int| 1 <= i < s.len() - 1
            implies (#[trigger] s.drop_last()[i]).1.parts as int == q by {
            assert(s.drop_last()[i] == s[i]);
        }
        assert(s.drop_last()[0] == s[0]);
        lemma_ratio_const(s.drop_last(), q);
        assert(s.last() == s[s.len() - 1]);
        assert((s.len() - 1) * q == (s.len() - 2) * q + q) by (nonlinear_arith);
    }
}

/// The equal split is a well-formed ratio assignment summing to one whole.
pub proof fn lemma_equal_split_total(edges: Seq<u64>)
    requires
        edges.len() > 0,
    ensures
        ratio_total(equal_split(edges)) == BILLION,
        ratios_valid(equal_split(edges)),
        equal_split(edges).len() == edges.len(),
        forall|j: int| 0 <= j < edges.len() ==> (#[trigger] equal_split(edges)[j]).0 == edges[j],
{
    let n = edges.len() as int;
    let q = BILLION as int / n;
    let rr = BILLION as int % n;
    lemma_fundamental_div_mod(BILLION as int, n);
    lemma_mod_division_less_than_divisor(BILLION as int, n);
    lemma_div_pos_is_pos(BILLION as int, n);
    lemma_div_nonincreasing(BILLION as int, n);
    assert(q + rr <= BILLION as int) by (nonlinear_arith)
        requires
            BILLION as int == n * q + rr,
            q >= 0,
            rr >= 0,
            n >= 1,
    ;
    let s = equal_split(edges);
    assert(s[0].1.parts as int == q + rr);
    lemma_ratio_const(s, q);
    assert((s.len() - 1) * q == n * q - q) by (nonlinear_arith)
        requires
            s.len() as int == n,
    ;
}

/// The voters that reach at least one winner, in input order; exactly these
/// receive an assignment.
pub open spec fn assigned(voters: Seq<Voter>, winners: Seq<u64>) -> Seq<Voter>
    decreases voters.len(),
{
    if voters.len() == 0 {
        Seq::empty()
    } else {
        assigned(voters.drop_last(), winners) + if kept(
            voters.last().edges@,
            winners,
        ).len() > 0 {
            seq![voters.last()]
        } else {
            Seq::empty()
        }
    }
}

proof fn lemma_assigned_take_step(voters: Seq<Voter>, winners: Seq<u64>, i: int)
    requires
        0 <= i < voters.len(),
    ensures
        assigned(voters.take(i + 1), winners) == assigned(voters.take(i), winners) + if kept(
            voters[i].edges@,
            winners,
        ).len() > 0 {
            seq![voters[i]]
        } else {
            Seq::<Voter>::empty()
        },
{
    assert(voters.take(i + 1).drop_last() =~= voters.take(i));
    assert(voters.take(i + 1).last() == voters[i]);
}

/// The assignment list that the initial (unbalanced) solution carries: one
/// entry per assigned voter, the voter's stake split as evenly as the
/// fixed-point grid allows over its edges to winners.
pub open spec fn assignments_match(
    voters: Seq<Voter>,
    winners: Seq<u64>,
    out: Seq<StakedAssignment>,
) -> bool {
    let av = assigned(voters, winners);
    &&& out.len() == av.len()
    &&& forall|i: int| 0 <= i < av.len() ==> {
        &&& (#[trigger] out[i]).who == av[i].who
        &&& out[i].distribution@ == staked_edges(
            equal_split(kept(av[i].edges@, winners)),
            av[i].stake,
        )
    }
}

/// Splits one voter's stake evenly over its winner edges, in ratio form.
fn equal_split_exec(edges: &Vec<u64>) -> (r: Vec<(u64, PerBill)>)
    requires
        edges@.len() > 0,
    ensures
        r@ == equal_split(edges@),
        ratios_valid(r@),
        ratio_total(r@) == BILLION,
        r@.len() == edges@.len(),
{
    proof {
        lemma_equal_split_total(edges@);
        let n = edges@.len() as int;
        lemma_div_pos_is_pos(BILLION as int, n);
        lemma_div_nonincreasing(BILLION as int, n);
        lemma_mod_division_less_than_divisor(BILLION as int, n);
        lemma_fundamental_div_mod(BILLION as int, n);
        assert(BILLION as int % n <= BILLION as int) by (nonlinear_arith)
            requires
                BILLION as int == n * (BILLION as int / n) + BILLION as int % n,
                BILLION as int / n >= 0,
                BILLION as int % n >= 0,
                n >= 1,
        ;
        assert(BILLION as int / n + BILLION as int % n <= BILLION as int) by (nonlinear_arith)
            requires
                BILLION as int == n * (BILLION as int / n) + BILLION as int % n,
                BILLION as int / n >= 0,
                BILLION as int % n >= 0,
                n >= 1,
        ;
    }
    let m: u64 = edges.len() as u64;
    let q: u32 = ((BILLION as u64) / m) as u32;
    let rr: u32 = ((BILLION as u64) % m) as u32;
    let mut r: Vec<(u64, PerBill)> = Vec::new();
    let mut i: usize = 0;
    while i < edges.len()
        invariant
            edges@.len() > 0,
            m as int == edges@.len(),
            q as int == BILLION as int / edges@.len() as int,
            rr as int == BILLION as int % edges@.len() as int,
            q + rr <= BILLION,
            i <= edges@.len(),
            r@.len() == i,
            forall|j: int| 0 <= j < i ==> #[trigger] r@[j] == equal_split(edges@)[j],
        decreases edges@.len() - i,
    {
        let parts: u32 = if i == 0 {
            q + rr
        } else {
            q
        };
        let e = edges[i];
        r.push((e, PerBill { parts }));
        i = i + 1;
    }
    proof {
        assert(r@ =~= equal_split(edges@));
    }
    r
}

proof fn lemma_assigned_stake_le(voters: Seq<Voter>, winners: Seq<u64>)
    ensures
        total_stake(assigned(voters, winners)) <= total_stake(voters),
        0 <= total_stake(assigned(voters, winners)),
    decreases voters.len(),
{
    if voters.len() == 0 {
    } else {
        lemma_assigned_stake_le(voters.drop_last(), winners);
        if kept(voters.last().edges@, winners).len() > 0 {
            let a = assigned(voters.drop_last(), winners).push(voters.last());
            assert(assigned(voters, winners) =~= a);
            assert(a.drop_last() =~= assigned(voters.drop_last(), winners));
        }
    }
}

proof fn lemma_total_from_match(av: Seq<Voter>, out: Seq<StakedAssignment>)
    requires
        out.len() == av.len(),
        forall|i: int| 0 <= i < av.len()
            ==> pair_sum((#[trigger] out[i]).distribution@) == av[i].stake as int,
    ensures
        total_all(out) == total_stake(av),
    decreases out.len(),
{
    if out.len() > 0 {
        assert(out.last() == out[out.len() - 1]);
        assert forall|i: int| 0 <= i < av.len() - 1
            implies pair_sum((#[trigger] out.drop_last()[i]).distribution@)
                == av.drop_last()[i].stake as int by {
            assert(out.drop_last()[i] == out[i]);
            assert(av.drop_last()[i] == av[i]);
        }
        lemma_total_from_match(av.drop_last(), out.drop_last());
        assert(av.last() == av[av.len() - 1]);
    }
}

/// Runs the whole election: greedy selection of up to `winner_count`
/// winners, the initial even assignment of each reachable voter's stake
/// over its winner edges, and, when configured, the balancing post-process.
/// Fails with `InsufficientCandidates` exactly when a winner is requested
/// from an empty candidate list. Balancing never lowers the minimal
/// support, never changes the summed support, and never raises the sum of
/// squares; with zero iterations the assignment is the initial one exactly.
pub fn solve(
    winner_count: usize,
    candidates: &Vec<u64>,
    voters: &Vec<Voter>,
    balancing: Option<BalancingConfig>,
) -> (r: Result<ElectionResult, ElectionError>)
    requires
        candidates@.no_duplicates(),
        forall|i: int| 0 <= i < voters@.len() ==> (#[trigger] voters@[i]).is_valid(),
        total_stake(voters@) <= u64::MAX,
        balancing is Some ==> balancing->Some_0.tolerance.is_valid(),
    ensures
        r is Err <==> (candidates@.len() == 0 && winner_count > 0),
        r is Err ==> r->Err_0 == ElectionError::InsufficientCandidates,
        r is Ok ==> ({
            let res = r->Ok_0;
            let w = spec_winners(candidates@, voters@, winner_count as nat);
            let av = assigned(voters@, w);
            &&& res.winners@ == w
            &&& res.winners@.no_duplicates()
            &&& res.winners@.len() == if winner_count <= candidates@.len() {
                winner_count as int
            } else {
                candidates@.len() as int
            }
            &&& forall|j: int| 0 <= j < res.winners@.len()
                ==> candidates@.contains(#[trigger] res.winners@[j])
            &&& res.assignments@.len() == av.len()
            &&& forall|i: int| 0 <= i < av.len()
                ==> (#[trigger] res.assignments@[i]).who == av[i].who
                    && pair_sum(res.assignments@[i].distribution@) == av[i].stake as int
            &&& targets_in(res.assignments@, w)
            &&& ((balancing is None || balancing->Some_0.iterations == 0)
                ==> assignments_match(voters@, w, res.assignments@))
            &&& (balancing is Some ==> exists|init: Seq<StakedAssignment>| {
                &&& #[trigger] assignments_match(voters@, w, init)
                &&& same_shape(init, res.assignments@)
                &&& min_support_over(w, res.assignments@) >= min_support_over(w, init)
                &&& sum_supports_over(w, res.assignments@) == sum_supports_over(w, init)
                &&& sum_squares_over(w, res.assignments@) <= sum_squares_over(w, init)
            })
        }),
{
    if candidates.len() == 0 && winner_count > 0 {
        return Err(ElectionError::InsufficientCandidates);
    }
    let winners = elect(winner_count, candidates, voters);
    let ghost w = winners@;
    let mut out: Vec<StakedAssignment> = Vec::new();
    let mut vi: usize = 0;
    while vi < voters.len()
        invariant
            forall|i: int| 0 <= i < voters@.len() ==> (#[trigger] voters@[i]).is_valid(),
            w == winners@,
            vi <= voters@.len(),
            assignments_match(voters@.take(vi as int), w, out@),
            forall|i: int| 0 <= i < out@.len()
                ==> pair_sum((#[trigger] out@[i]).distribution@)
                    == assigned(voters@.take(vi as int), w)[i].stake as int,
        decreases voters@.len() - vi,
    {
        let v = &voters[vi];
        let ghost edges = v.edges@;
        let mut ke: Vec<u64> = Vec::new();
        let mut j: usize = 0;
        while j < v.edges.len()
            invariant
                v == voters@[vi as int],
                vi < voters@.len(),
                edges == v.edges@,
                j <= edges.len(),
                ke@ == kept(edges.take(j as int), w),
                w == winners@,
            decreases edges.len() - j,
        {
            let e = v.edges[j];
            proof {
                assert(edges.take(j as int + 1) =~= edges.take(j as int).push(edges[j as int]));
                lemma_kept_push(edges.take(j as int), edges[j as int], w);
            }
            if contains_u64(&winners, e) {
                ke.push(e);
                proof {
                    assert(ke@ =~= kept(edges.take(j as int + 1), w));
                }
            } else {
                proof {
                    assert(ke@ =~= kept(edges.take(j as int + 1), w));
                }
            }
            j = j + 1;
        }
        proof {
            assert(edges.take(edges.len() as int) =~= edges);
            lemma_assigned_take_step(voters@, w, vi as int);
        }
        let ghost av0 = assigned(voters@.take(vi as int), w);
        let ghost av1 = assigned(voters@.take(vi as int + 1), w);
        if ke.len() > 0 {
            let ratio = equal_split_exec(&ke);
            let who = v.who;
            let a = Assignment { who, distribution: ratio };
            let stake = v.stake;
            assert(stake > 0);
            let sa = match normalize_one(&a, stake) {
                Ok(s) => s,
                Err(_) => unreached(),
            };
            out.push(sa);
            proof {
                assert(av1 =~= av0.push(voters@[vi as int]));
                assert forall|i: int| 0 <= i < av1.len() implies {
                    &&& (#[trigger] out@[i]).who == av1[i].who
                    &&& out@[i].distribution@ == staked_edges(
                        equal_split(kept(av1[i].edges@, w)),
                        av1[i].stake,
                    )
                } by {
                    if i < av0.len() {
                        assert(av1[i] == av0[i]);
                        assert(out@[i] == out@.subrange(0, out@.len() - 1)[i]);
                    } else {
                        assert(av1[i] == voters@[vi as int]);
                        assert(out@[i] == sa);
                    }
                }
            }
        } else {
            proof {
                assert(av1 =~= av0);
            }
        }
        vi = vi + 1;
    }
    proof {
        assert(voters@.take(voters@.len() as int) =~= voters@);
    }
    let ghost av = assigned(voters@, w);
    proof {
        // Every target of the initial assignment is a winner.
        assert forall|i: int, j: int|
            0 <= i < out@.len() && 0 <= j < out@[i].distribution@.len()
                implies w.contains((#[trigger] out@[i].distribution@[j]).0) by {
            let es = kept(av[i].edges@, w);
            lemma_kept_in(av[i].edges@, w);
            lemma_equal_split_total(es);
            assert(out@[i].distribution@[j].0 == equal_split(es)[j].0);
        }
        lemma_total_from_match(av, out@);
        lemma_assigned_stake_le(voters@, w);
    }
    let assignments = match balancing {
        None => out,
        Some(cfg) => {
            let ghost initv = out@;
            let balanced = balance(&winners, out, cfg);
            proof {
                assert(assignments_match(voters@, w, initv));
                assert forall|i: int| 0 <= i < av.len()
                    implies (#[trigger] balanced@[i]).who == av[i].who
                        && pair_sum(balanced@[i].distribution@) == av[i].stake as int by {
                    assert(balanced@[i].who == initv[i].who);
                    assert(pair_sum(balanced@[i].distribution@)
                        == pair_sum(initv[i].distribution@));
                }
            }
            balanced
        },
    };
    Ok(ElectionResult { winners, assignments })
}

} // verus!
