//! Exact values and properties of the fitness scorer.

use mirror_rank::{decay, weighted_score, DECAY_ONE, FITNESS_HALF, FITNESS_ONE, MAX_INPUT_MILLI};

#[test]
fn decay_of_zero_is_one() {
    assert_eq!(decay(0), DECAY_ONE);
}

#[test]
fn decay_exact_values() {
    // half a second of latency barely dents the curve
    assert_eq!(decay(500), 49_875_156_119_954);
    // reliability 10.0: exactly 3/8 of the scale
    assert_eq!(decay(10_000), 18_750_000_000_000);
    // reliability 50.0
    assert_eq!(decay(50_000), 16_991_391_028);
    // reliability 90.0
    assert_eq!(decay(90_000), 543_856_595);
}

#[test]
fn perfect_candidate_scores_one() {
    assert_eq!(weighted_score(0, 0), FITNESS_ONE);
}

#[test]
fn score_is_positive_and_bounded() {
    let worst = weighted_score(MAX_INPUT_MILLI, MAX_INPUT_MILLI);
    assert!(worst > 0);
    assert!(worst < FITNESS_ONE);
    assert!(weighted_score(1, 0) < FITNESS_ONE);
    assert!(weighted_score(0, 1) < FITNESS_ONE);
}

#[test]
fn score_is_strictly_monotone_in_latency() {
    let fast = weighted_score(10_000, 100);
    let slow = weighted_score(10_000, 200);
    assert!(fast > slow);
    assert!(weighted_score(10_000, 999) > weighted_score(10_000, 1_000));
}

#[test]
fn score_is_strictly_monotone_in_reliability() {
    assert!(weighted_score(10_000, 500) > weighted_score(50_000, 500));
    assert!(weighted_score(50_000, 500) > weighted_score(90_000, 500));
}

#[test]
fn score_is_symmetric() {
    assert_eq!(weighted_score(123, 45_678), weighted_score(45_678, 123));
    assert_eq!(weighted_score(0, 777), weighted_score(777, 0));
}

#[test]
fn example_scores_around_the_threshold() {
    // reliability 10.0, 50.0 and 90.0, each probed at half a second; only
    // the first clears the 0.5 threshold, as under the exponential curve
    assert_eq!(weighted_score(10_000, 500), 68_625_156_119_954);
    assert_eq!(weighted_score(50_000, 500), 49_892_147_510_982);
    assert_eq!(weighted_score(90_000, 500), 49_875_699_976_549);
    assert!(weighted_score(10_000, 500) > FITNESS_HALF);
    assert!(weighted_score(50_000, 500) <= FITNESS_HALF);
    assert!(weighted_score(90_000, 500) <= FITNESS_HALF);
}
