use dicepool::roll::{evaluate_rolls, get_matches, roll_pool, RollReport};

#[test]
fn test_matches() {
    assert_eq!(get_matches(&[2, 3, 4]), 0);
    assert_eq!(get_matches(&[]), 0);
    assert_eq!(get_matches(&[1, 2, 1]), 1);
    assert_eq!(get_matches(&[1, 1, 3, 3, 1]), 2);
}

#[test]
fn matches_of_a_single_repeated_value() {
    assert_eq!(get_matches(&[5, 5, 5, 5]), 3);
    assert_eq!(get_matches(&[7]), 0);
    assert_eq!(get_matches(&[255, 0, 255]), 1);
}

#[test]
fn matches_of_the_largest_pool() {
    let all_same = vec![12u8; 256];
    assert_eq!(get_matches(&all_same), 255);
    let all_different: Vec<u8> = (0..=255u8).collect();
    assert_eq!(get_matches(&all_different), 0);
}

#[test]
fn two_successes_without_matches() {
    let report = evaluate_rolls(&[9, 10, 1], 9);
    assert_eq!(
        report,
        RollReport { successes: 2, matches: 0, critical_failure: false }
    );
}

#[test]
fn one_and_no_success_is_a_critical_failure() {
    let report = evaluate_rolls(&[1, 3], 9);
    assert_eq!(
        report,
        RollReport { successes: 0, matches: 0, critical_failure: true }
    );
}

#[test]
fn critical_failure_whatever_the_other_failures() {
    assert!(evaluate_rolls(&[2, 1, 8, 5, 7, 3], 9).critical_failure);
    assert!(!evaluate_rolls(&[2, 8, 5], 9).critical_failure);
    assert!(!evaluate_rolls(&[1, 9], 9).critical_failure);
    assert!(!evaluate_rolls(&[], 9).critical_failure);
}

#[test]
fn matches_among_successes() {
    let report = evaluate_rolls(&[10, 3, 10, 12, 10, 12], 9);
    assert_eq!(
        report,
        RollReport { successes: 5, matches: 2, critical_failure: false }
    );
    let failed_repeats = evaluate_rolls(&[4, 4, 4, 11], 9);
    assert_eq!(failed_repeats.successes, 1);
    assert_eq!(failed_repeats.matches, 0);
}

#[test]
fn zero_difficulty_counts_every_die() {
    let report = evaluate_rolls(&[1, 1, 2], 0);
    assert_eq!(
        report,
        RollReport { successes: 3, matches: 1, critical_failure: false }
    );
}

#[test]
fn pool_has_one_value_per_die_within_the_faces() {
    let mut rng = rand::thread_rng();
    let rolls = roll_pool(&mut rng, 200, 6);
    assert_eq!(rolls.len(), 200);
    assert!(rolls.iter().all(|r| (1..=6).contains(r)));
    assert!(rolls.iter().any(|r| *r != 1));
    assert!(roll_pool(&mut rng, 0, 0).is_empty());
    assert_eq!(roll_pool(&mut rng, 5, 1), vec![1; 5]);
}
