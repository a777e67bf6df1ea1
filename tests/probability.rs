use committee_security::representativeness::{cdf, count_failures, failure_probability, min_sample_size, pmf, tolerated_faults};
use num_bigint::BigInt;
use num_rational::BigRational;
use num_traits::{ToPrimitive, Zero};

fn frac(n: i64, d: i64) -> BigRational {
    BigRational::new(BigInt::from(n), BigInt::from(d))
}

#[test]
fn pmf_above_n_is_zero() {
    for n in 0..6u32 {
        for k in (n + 1)..(n + 4) {
            assert!(pmf(n, 1, 3, k).is_zero());
            assert!(pmf(n, 2, 5, k).is_zero());
        }
    }
}

#[test]
fn pmf_exact_values() {
    assert_eq!(pmf(2, 1, 2, 1), frac(1, 2));
    assert_eq!(pmf(3, 1, 3, 0), frac(8, 27));
    assert_eq!(pmf(3, 1, 3, 3), frac(1, 27));
    assert_eq!(pmf(4, 0, 1, 0), frac(1, 1));
}

#[test]
fn pmf_sums_to_one() {
    for &(n, a, d) in &[(0u32, 1u32, 3u32), (1, 1, 3), (10, 1, 3), (25, 2, 7), (60, 1, 5)] {
        let mut sum = BigRational::zero();
        for k in 0..=n {
            sum += pmf(n, a, d, k);
        }
        assert_eq!(sum, frac(1, 1));
        assert_eq!(cdf(n, a, d, n), frac(1, 1));
    }
}

#[test]
fn cdf_exact_value() {
    assert_eq!(cdf(3, 1, 3, 1), frac(20, 27));
    assert_eq!(cdf(3, 1, 2, 0), frac(1, 8));
}

#[test]
fn tolerated_faults_floors() {
    assert_eq!(tolerated_faults(3, 2, 3), 2);
    assert_eq!(tolerated_faults(4, 2, 3), 2);
    assert_eq!(tolerated_faults(141, 2, 3), 94);
    assert_eq!(tolerated_faults(10, 1, 3), 3);
}

#[test]
fn failure_probability_exact_value() {
    assert_eq!(failure_probability(3, 1, 3, 2, 3), frac(1, 27));
    assert_eq!(failure_probability(1, 1, 2, 1, 3), frac(1, 2));
}

#[test]
fn failure_probability_nonincreasing_in_whole_thirds() {
    let mut prev = failure_probability(3, 1, 3, 2, 3);
    let mut n = 6;
    while n <= 150 {
        let cur = failure_probability(n, 1, 3, 2, 3);
        assert!(cur <= prev, "n = {}", n);
        prev = cur;
        n += 3;
    }
}

#[test]
fn failure_probability_matches_reported_magnitude() {
    let p = failure_probability(141, 1, 3, 2, 3).to_f64().unwrap();
    assert!(p > 0.0 && p < 1e-12);
    let q = failure_probability(141, 1, 3, 1, 3).to_f64().unwrap();
    assert!(q > 0.3 && q < 0.7);
}

#[test]
fn min_sample_size_is_minimal() {
    let s = min_sample_size(1, 3, 2, 3, 19, 100_000_000_000_000, 200).unwrap();
    let bound = frac(19, 100_000_000_000_000);
    assert!(failure_probability(s, 1, 3, 2, 3) < bound);
    for n in 1..s {
        assert!(failure_probability(n, 1, 3, 2, 3) >= bound);
    }
    assert_eq!(min_sample_size(1, 3, 2, 3, 19, 100_000_000_000_000, 200), Some(s));
}

#[test]
fn min_sample_size_none_when_bound_too_small() {
    assert_eq!(min_sample_size(1, 3, 2, 3, 19, 100_000_000_000_000, 10), None);
    assert_eq!(min_sample_size(1, 3, 2, 3, 0, 1, 50), None);
}

#[test]
fn min_sample_size_first_size_can_answer() {
    assert_eq!(min_sample_size(1, 5, 1, 3, 1, 1, 200), Some(1));
}

#[test]
fn count_failures_strictly_above_threshold() {
    // 10 seats, threshold 2/3: 7 of 10 exceeds, 6 does not; 20/30 equals and does not.
    assert_eq!(count_failures(&vec![0, 6, 7, 10, 3, 7], 10, 2, 3), 3);
    assert_eq!(count_failures(&vec![20, 21], 30, 2, 3), 1);
    assert_eq!(count_failures(&vec![], 30, 2, 3), 0);
    assert_eq!(count_failures(&vec![u64::MAX], u64::MAX, u64::MAX, u64::MAX), 0);
}

#[test]
fn count_failures_on_certain_and_impossible_events() {
    let draws: Vec<u64> = (0..1000).map(|i| i % 11).collect();
    assert_eq!(count_failures(&draws, 10, 1, 1), 0);
    assert_eq!(count_failures(&draws, 10, 0, 1), 1000 - 1000 / 11 - 1);
    assert!(failure_probability(10, 1, 3, 1, 1).is_zero());
}

#[test]
fn cdf_grows_to_one_and_threshold_lowers_failure() {
    let mut prev = BigRational::zero();
    for k in 0..=25 {
        let c = cdf(20, 1, 3, k);
        assert!(c >= prev);
        assert!(c <= frac(1, 1));
        prev = c;
    }
    assert_eq!(prev, frac(1, 1));
    for t in 0..6u32 {
        let low = failure_probability(30, 1, 3, t, 6);
        let high = failure_probability(30, 1, 3, t + 1, 6);
        assert!(high <= low);
        assert!(low >= BigRational::zero() && low <= frac(1, 1));
    }
}
