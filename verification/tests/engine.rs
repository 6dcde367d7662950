use npos_elections::types::{
    Assignment, BalancingConfig, ElectionError, PerBill, Score, StakedAssignment, Support, Voter,
};
use npos_elections::normalize::normalize;
use npos_elections::support::{build_support_map, support_to};
use npos_elections::score::{evaluate_support, is_better};
use npos_elections::solve::solve;
use npos_elections::balance::balance;
use npos_elections::BILLION;

fn ratio(parts: u32) -> PerBill {
    PerBill::from_parts(parts)
}

fn assignment(who: u64, dist: Vec<(u64, u32)>) -> Assignment {
    Assignment {
        who,
        distribution: dist.into_iter().map(|(t, p)| (t, ratio(p))).collect(),
    }
}

fn staked(who: u64, distribution: Vec<(u64, u64)>) -> StakedAssignment {
    StakedAssignment { who, distribution }
}

#[test]
fn normalize_conserves_each_voter_stake() {
    let assignments = vec![assignment(10, vec![(1, 600_000_000), (2, 400_000_000)])];
    let stakes = vec![(10u64, 100u64)];
    let out = normalize(&assignments, &stakes).unwrap();
    assert_eq!(out.len(), 1);
    assert_eq!(out[0].who, 10);
    assert_eq!(out[0].distribution, vec![(1, 60), (2, 40)]);
    let total: u64 = out[0].distribution.iter().map(|e| e.1).sum();
    assert_eq!(total, 100);
}

#[test]
fn normalize_distributes_residual_from_first_edge() {
    let assignments = vec![assignment(
        7,
        vec![(1, 333_333_333), (2, 333_333_333), (3, 333_333_334)],
    )];
    let stakes = vec![(7u64, 100u64)];
    let out = normalize(&assignments, &stakes).unwrap();
    // Floors are 33 + 33 + 33 = 99; the one leftover unit goes to the first
    // edge in declared order.
    assert_eq!(out[0].distribution, vec![(1, 34), (2, 33), (3, 33)]);
    let total: u64 = out[0].distribution.iter().map(|e| e.1).sum();
    assert_eq!(total, 100);
}

#[test]
fn normalize_single_edge_gets_whole_stake() {
    let assignments = vec![assignment(3, vec![(9, BILLION)])];
    let stakes = vec![(3u64, 7u64)];
    let out = normalize(&assignments, &stakes).unwrap();
    assert_eq!(out[0].distribution, vec![(9, 7)]);
}

#[test]
fn normalize_unknown_voter_stake() {
    let assignments = vec![assignment(10, vec![(1, BILLION)])];
    let stakes = vec![(11u64, 100u64)];
    assert_eq!(
        normalize(&assignments, &stakes),
        Err(ElectionError::UnknownVoterStake)
    );
}

#[test]
fn normalize_rejects_empty_edge_set() {
    let assignments = vec![assignment(10, vec![])];
    let stakes = vec![(10u64, 100u64)];
    assert_eq!(
        normalize(&assignments, &stakes),
        Err(ElectionError::EmptyVoterSet)
    );
}

#[test]
fn normalize_rejects_zero_stake() {
    let assignments = vec![assignment(10, vec![(1, BILLION)])];
    let stakes = vec![(10u64, 0u64)];
    assert_eq!(
        normalize(&assignments, &stakes),
        Err(ElectionError::ZeroStakeVoter)
    );
}

#[test]
fn normalize_first_failing_assignment_decides_the_error() {
    let assignments = vec![
        assignment(10, vec![(1, BILLION)]),
        assignment(11, vec![(1, BILLION)]),
        assignment(12, vec![]),
    ];
    let stakes = vec![(10u64, 5u64), (12u64, 5u64)];
    // Assignment for voter 11 fails before the empty one for voter 12.
    assert_eq!(
        normalize(&assignments, &stakes),
        Err(ElectionError::UnknownVoterStake)
    );
}

#[test]
fn support_map_aggregates_per_winner() {
    let winners = vec![1u64, 2, 9];
    let assignments = vec![
        staked(10, vec![(1, 60), (2, 40)]),
        staked(11, vec![(2, 100), (3, 5)]),
    ];
    let map = build_support_map(&winners, &assignments);
    assert_eq!(map.len(), 3);
    assert_eq!(map[0].0, 1);
    assert_eq!(map[0].1.total, 60);
    assert_eq!(map[0].1.voters, vec![(10, 60)]);
    assert_eq!(map[1].0, 2);
    assert_eq!(map[1].1.total, 140);
    assert_eq!(map[1].1.voters, vec![(10, 40), (11, 100)]);
    // A winner nobody reaches keeps a zero total; the edge to the
    // non-winner 3 is dropped silently.
    assert_eq!(map[2].0, 9);
    assert_eq!(map[2].1.total, 0);
    assert_eq!(map[2].1.voters, vec![]);
    assert_eq!(support_to(&assignments, 2), 140);
    assert_eq!(support_to(&assignments, 3), 5);
}

#[test]
fn evaluate_support_computes_the_three_components() {
    let winners = vec![1u64, 2];
    let assignments = vec![
        staked(10, vec![(1, 60), (2, 40)]),
        staked(11, vec![(2, 100)]),
    ];
    let map = build_support_map(&winners, &assignments);
    let score = evaluate_support(&map).unwrap();
    assert_eq!(score.min_support, 60);
    assert_eq!(score.sum_support, 200);
    assert_eq!(score.sum_squares, 60 * 60 + 140 * 140);
}

#[test]
fn evaluate_support_empty_map_is_all_zero() {
    let map: Vec<(u64, Support)> = vec![];
    let score = evaluate_support(&map).unwrap();
    assert_eq!(
        score,
        Score { min_support: 0, sum_squares: 0, sum_support: 0 }
    );
}

#[test]
fn evaluate_support_surfaces_overflow() {
    let map = vec![
        (1u64, Support { total: u128::MAX, voters: vec![] }),
        (2u64, Support { total: 1, voters: vec![] }),
    ];
    assert_eq!(evaluate_support(&map), Err(ElectionError::ArithmeticOverflow));
    let map2 = vec![(1u64, Support { total: 1u128 << 64, voters: vec![] })];
    assert_eq!(evaluate_support(&map2), Err(ElectionError::ArithmeticOverflow));
}

fn score(min_support: u128, sum_squares: u128, sum_support: u128) -> Score {
    Score { min_support, sum_squares, sum_support }
}

#[test]
fn is_better_is_lexicographic() {
    let zero = PerBill::zero();
    assert!(is_better(score(10, 50, 20), score(9, 50, 20), zero));
    assert!(!is_better(score(9, 50, 20), score(10, 50, 20), zero));
    assert!(is_better(score(10, 40, 20), score(10, 50, 20), zero));
    assert!(!is_better(score(10, 50, 20), score(10, 40, 20), zero));
    assert!(is_better(score(10, 50, 21), score(10, 50, 20), zero));
    assert!(!is_better(score(10, 50, 20), score(10, 50, 20), zero));
}

#[test]
fn is_better_treats_values_within_tolerance_as_equal() {
    // Ten percent tolerance: 100 and 101 count as equal in the first
    // component, so the second component decides.
    let tol = PerBill::from_parts(100_000_000);
    assert!(is_better(score(100, 40, 20), score(101, 50, 20), tol));
    assert!(!is_better(score(101, 50, 20), score(100, 40, 20), tol));
}

fn voter(who: u64, stake: u64, edges: Vec<u64>) -> Voter {
    Voter { who, stake, edges }
}

fn score_of(winners: &Vec<u64>, assignments: &Vec<StakedAssignment>) -> Score {
    let map = build_support_map(winners, assignments);
    evaluate_support(&map).unwrap()
}

#[test]
fn three_candidates_two_winners_scenario() {
    let candidates = vec![1u64, 2, 3];
    let voters = vec![
        voter(101, 100, vec![1, 2]),
        voter(102, 100, vec![2, 3]),
        voter(103, 100, vec![1, 3]),
    ];
    let unbalanced = solve(2, &candidates, &voters, None).unwrap();
    // All three candidates start tied at prospective support 200, so the two
    // lowest identifiers win in order.
    assert_eq!(unbalanced.winners, vec![1, 2]);
    assert_eq!(unbalanced.assignments.len(), 3);
    assert_eq!(unbalanced.assignments[0].distribution, vec![(1, 50), (2, 50)]);
    assert_eq!(unbalanced.assignments[1].distribution, vec![(2, 100)]);
    assert_eq!(unbalanced.assignments[2].distribution, vec![(1, 100)]);
    let before = score_of(&unbalanced.winners, &unbalanced.assignments);
    assert_eq!(before.min_support, 150);
    assert_eq!(before.sum_support, 300);

    let cfg = BalancingConfig { iterations: 10, tolerance: PerBill::zero() };
    let balanced = solve(2, &candidates, &voters, Some(cfg)).unwrap();
    assert_eq!(balanced.winners, vec![1, 2]);
    let after = score_of(&balanced.winners, &balanced.assignments);
    assert!(after.min_support >= before.min_support);
    assert_eq!(after.sum_support, 300);
    assert!(after.sum_squares <= before.sum_squares);
}

#[test]
fn tie_break_elects_the_lowest_identifier() {
    let candidates = vec![5u64, 3];
    let voters = vec![voter(1, 100, vec![3, 5])];
    let result = solve(1, &candidates, &voters, None).unwrap();
    assert_eq!(result.winners, vec![3]);
}

#[test]
fn solve_elects_all_candidates_when_fewer_than_requested() {
    let candidates = vec![4u64, 8];
    let voters = vec![voter(1, 10, vec![4]), voter(2, 20, vec![8])];
    let result = solve(5, &candidates, &voters, None).unwrap();
    assert_eq!(result.winners.len(), 2);
}

#[test]
fn solve_fails_only_on_empty_candidates_with_positive_count() {
    let voters = vec![voter(1, 10, vec![4])];
    assert_eq!(
        solve(1, &vec![], &voters, None),
        Err(ElectionError::InsufficientCandidates)
    );
    let empty = solve(0, &vec![], &voters, None).unwrap();
    assert_eq!(empty.winners, Vec::<u64>::new());
    assert_eq!(empty.assignments, Vec::<StakedAssignment>::new());
}

#[test]
fn solve_is_deterministic() {
    let candidates = vec![1u64, 2, 3, 4];
    let voters = vec![
        voter(101, 907, vec![1, 3]),
        voter(102, 411, vec![2, 3, 4]),
        voter(103, 652, vec![1, 4]),
        voter(104, 89, vec![2]),
    ];
    let cfg = BalancingConfig { iterations: 8, tolerance: PerBill::zero() };
    let a = solve(3, &candidates, &voters, Some(cfg)).unwrap();
    let b = solve(3, &candidates, &voters, Some(cfg)).unwrap();
    assert_eq!(a, b);
    let c = solve(3, &candidates, &voters, None).unwrap();
    let d = solve(3, &candidates, &voters, None).unwrap();
    assert_eq!(c, d);
}

#[test]
fn zero_iterations_balancing_changes_nothing() {
    let candidates = vec![1u64, 2];
    let voters = vec![voter(10, 100, vec![1, 2]), voter(11, 10, vec![2])];
    let plain = solve(2, &candidates, &voters, None).unwrap();
    let cfg = BalancingConfig { iterations: 0, tolerance: PerBill::zero() };
    let noop = solve(2, &candidates, &voters, Some(cfg)).unwrap();
    assert_eq!(plain, noop);
    assert_eq!(
        score_of(&plain.winners, &plain.assignments),
        score_of(&noop.winners, &noop.assignments)
    );
}

#[test]
fn balancing_improves_an_uneven_assignment() {
    let candidates = vec![1u64, 2];
    let voters = vec![voter(10, 100, vec![1, 2]), voter(11, 10, vec![2])];
    let unbalanced = solve(2, &candidates, &voters, None).unwrap();
    let before = score_of(&unbalanced.winners, &unbalanced.assignments);
    assert_eq!(before.min_support, 50);
    assert_eq!(before.sum_support, 110);

    let cfg = BalancingConfig { iterations: 10, tolerance: PerBill::zero() };
    let balanced = solve(2, &candidates, &voters, Some(cfg)).unwrap();
    let after = score_of(&balanced.winners, &balanced.assignments);
    assert!(after.min_support > before.min_support);
    assert_eq!(after.sum_support, before.sum_support);
    assert!(after.sum_squares < before.sum_squares);
    assert_eq!(after.min_support, 55);
}

#[test]
fn balance_standalone_keeps_shape_and_never_worsens() {
    let winners = vec![1u64, 2];
    let assignments = vec![
        staked(10, vec![(1, 90), (2, 10)]),
        staked(11, vec![(2, 30)]),
    ];
    let before = score_of(&winners, &assignments);
    let cfg = BalancingConfig { iterations: 5, tolerance: PerBill::zero() };
    let out = balance(&winners, assignments, cfg);
    let after = score_of(&winners, &out);
    assert!(after.min_support >= before.min_support);
    assert_eq!(after.sum_support, before.sum_support);
    assert!(after.sum_squares <= before.sum_squares);
    // Per-voter totals are conserved.
    let t0: u64 = out[0].distribution.iter().map(|e| e.1).sum();
    let t1: u64 = out[1].distribution.iter().map(|e| e.1).sum();
    assert_eq!(t0, 100);
    assert_eq!(t1, 30);
}

#[test]
fn tolerant_balancing_still_never_worsens() {
    let candidates = vec![1u64, 2];
    let voters = vec![voter(10, 100, vec![1, 2]), voter(11, 10, vec![2])];
    let unbalanced = solve(2, &candidates, &voters, None).unwrap();
    let before = score_of(&unbalanced.winners, &unbalanced.assignments);
    // A coarse tolerance may stop balancing early, but the certified
    // invariant holds regardless.
    let cfg = BalancingConfig {
        iterations: 10,
        tolerance: PerBill::from_parts(500_000_000),
    };
    let balanced = solve(2, &candidates, &voters, Some(cfg)).unwrap();
    let after = score_of(&balanced.winners, &balanced.assignments);
    assert!(after.min_support >= before.min_support);
    assert_eq!(after.sum_support, before.sum_support);
    assert!(after.sum_squares <= before.sum_squares);
}

#[test]
fn is_better_tolerance_handles_large_magnitudes() {
    // One percent of a value near the top of the u128 range: the comparator
    // must compute the threshold without overflowing.
    let tol = PerBill::from_parts(10_000_000);
    let big = u128::MAX - 5;
    let a = score(big, 50, 20);
    let b = score(big - big / 200, 50, 20);
    // Half a percent below: within the one percent tolerance, so the equal
    // second components leave the third to decide; both equal gives false.
    assert!(!is_better(a, b, tol));
    // Two percent below: outside tolerance, so the higher minimum wins.
    let c = score(big - big / 50, 50, 20);
    assert!(is_better(a, c, tol));
    assert!(!is_better(c, a, tol));
}

#[test]
fn perbill_constructors() {
    assert_eq!(PerBill::zero().parts, 0);
    assert_eq!(PerBill::one().parts, BILLION);
    assert_eq!(PerBill::from_parts(250_000_000).parts, 250_000_000);
}
