use ranked_choice::engine::{candidates_of, first_preference, run_election, ElectionResult};

const A: i32 = 1;
const B: i32 = 2;
const C: i32 = 3;
const D: i32 = 4;

#[test]
fn majority_on_first_preferences_wins() {
    let ballots = vec![vec![A, B, C], vec![A, C, B], vec![B, A, C]];
    assert_eq!(run_election(&ballots), ElectionResult::Winner(A));
}

#[test]
fn three_way_tie_lists_all_in_ascending_order() {
    let ballots = vec![vec![A, B], vec![B, C], vec![C, A]];
    assert_eq!(run_election(&ballots), ElectionResult::Tie(vec![A, B, C]));
}

#[test]
fn tie_is_ascending_whatever_the_order_of_the_ballots() {
    let ballots = vec![vec![C, A], vec![B, C], vec![A, B]];
    assert_eq!(run_election(&ballots), ElectionResult::Tie(vec![A, B, C]));
}

#[test]
fn no_ballots_no_result() {
    let ballots: Vec<Vec<i32>> = Vec::new();
    assert_eq!(run_election(&ballots), ElectionResult::NoResult);
}

#[test]
fn only_blank_ballots_no_result() {
    let ballots: Vec<Vec<i32>> = vec![vec![], vec![]];
    assert_eq!(run_election(&ballots), ElectionResult::NoResult);
}

#[test]
fn exactly_half_is_no_majority() {
    let ballots = vec![vec![A], vec![A], vec![B], vec![B]];
    assert_eq!(run_election(&ballots), ElectionResult::Tie(vec![A, B]));
}

#[test]
fn one_more_than_half_is_a_majority() {
    let ballots = vec![vec![A], vec![A], vec![A], vec![B], vec![B]];
    assert_eq!(run_election(&ballots), ElectionResult::Winner(A));
}

#[test]
fn single_candidate_wins() {
    let ballots = vec![vec![C]];
    assert_eq!(run_election(&ballots), ElectionResult::Winner(C));
}

#[test]
fn four_voters_unranked_first_candidate_drops_out_first() {
    // Round 1: A=2, B=1, C=1, D=0 and nobody has more than half of 4; D drops out.
    // Round 2: B and C trail together and drop out. Round 3: A stands alone.
    let ballots = vec![vec![A, D], vec![A, B], vec![B, D, A], vec![C, D, A]];
    assert_eq!(run_election(&ballots), ElectionResult::Winner(A));
}

#[test]
fn redistribution_beats_plurality() {
    // First preferences: A=3, B=2, C=2, D=1. D drops out and its ballot goes to B;
    // then C drops out and its ballots go to B, which ends with 5 of 8.
    let ballots = vec![
        vec![A],
        vec![A],
        vec![A],
        vec![B],
        vec![B],
        vec![C, B],
        vec![C, B],
        vec![D, B],
    ];
    assert_eq!(run_election(&ballots), ElectionResult::Winner(B));
}

#[test]
fn trailing_candidates_drop_out_together() {
    // A=3, B=2, C=1, D=1 of 7: C and D drop out in the same round, one ballot
    // each goes to A and to B, and A ends with 4 of 7.
    let ballots = vec![
        vec![A],
        vec![A],
        vec![A],
        vec![B],
        vec![B],
        vec![C, A],
        vec![D, B],
    ];
    assert_eq!(run_election(&ballots), ElectionResult::Winner(A));
}

#[test]
fn exhausted_ballots_do_not_count_towards_the_majority() {
    // A=2, B=2, C=1 of 5. C drops out and its ballot names nobody else, so the
    // next round has 4 votes, 2 each: a tie.
    let ballots = vec![vec![A], vec![A], vec![B], vec![B], vec![C]];
    assert_eq!(run_election(&ballots), ElectionResult::Tie(vec![A, B]));
}

#[test]
fn order_of_ballots_does_not_matter() {
    let one = vec![vec![A], vec![B, A], vec![C, B], vec![A, C], vec![B]];
    let other = vec![vec![B], vec![A, C], vec![C, B], vec![B, A], vec![A]];
    assert_eq!(run_election(&one), run_election(&other));
    assert_eq!(run_election(&one), ElectionResult::Winner(B));
}

#[test]
fn blank_ballot_changes_nothing() {
    let without = vec![vec![A, B], vec![B, A], vec![A]];
    let with = vec![vec![A, B], vec![], vec![B, A], vec![A]];
    assert_eq!(run_election(&without), ElectionResult::Winner(A));
    assert_eq!(run_election(&with), ElectionResult::Winner(A));
}

#[test]
fn resolve_takes_winner_or_smallest_of_tie() {
    assert_eq!(ElectionResult::Winner(7).resolve(), Some(7));
    assert_eq!(ElectionResult::Tie(vec![2, 5, 9]).resolve(), Some(2));
    assert_eq!(ElectionResult::NoResult.resolve(), None);
}

#[test]
fn candidates_are_listed_once_in_ascending_order() {
    let ballots = vec![vec![9, 2], vec![], vec![2, 7, 9], vec![-1]];
    assert_eq!(candidates_of(&ballots), vec![-1, 2, 7, 9]);
}

#[test]
fn first_preference_skips_those_out_of_the_running() {
    assert_eq!(first_preference(&vec![4, 2, 3], &vec![2, 3]), Some(2));
    assert_eq!(first_preference(&vec![4, 5], &vec![2, 3]), None);
    assert_eq!(first_preference(&vec![], &vec![2, 3]), None);
}
