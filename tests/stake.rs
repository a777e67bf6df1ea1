use committee_security::stake::{
    sample_node, total_weight, CustomStakeDistribution, ExponentialStakeDistribution, UniformStakeDistribution,
    ValidatorSample,
};
use num_bigint::BigInt;
use num_rational::BigRational;
use num_traits::{ToPrimitive, Zero};

fn approx_equal(a: f64, b: f64) -> bool {
    (a - b).abs() < 1e-10
}

fn frac(n: i64, d: i64) -> BigRational {
    BigRational::new(BigInt::from(n), BigInt::from(d))
}

#[test]
fn exponential_stake_distribution_0_5() {
    let distribution = ExponentialStakeDistribution::new(4, 1, 2);
    assert_eq!(distribution.num_nodes(), 4);
    assert!(approx_equal(distribution.stake_of(0).to_f64().unwrap(), 0.5));
    assert!(approx_equal(distribution.stake_of(1).to_f64().unwrap(), 0.25));
    assert!(approx_equal(distribution.stake_of(2).to_f64().unwrap(), 0.125));
    assert!(approx_equal(distribution.stake_of(3).to_f64().unwrap(), 0.125));
}

#[test]
fn exponential_stake_distribution_0_8() {
    let distribution = ExponentialStakeDistribution::new(4, 4, 5);
    assert_eq!(distribution.num_nodes(), 4);
    assert!(approx_equal(distribution.stake_of(0).to_f64().unwrap(), 0.8));
    assert!(approx_equal(distribution.stake_of(1).to_f64().unwrap(), 0.2 * 0.8));
    assert!(approx_equal(distribution.stake_of(2).to_f64().unwrap(), 0.2 * 0.2 * 0.8));
    assert!(approx_equal(distribution.stake_of(3).to_f64().unwrap(), 0.2 * 0.2 * 0.2));
}

#[test]
fn exponential_shares_sum_to_one() {
    let distribution = ExponentialStakeDistribution::new(4, 1, 2);
    let mut sum = BigRational::zero();
    for i in 0..4 {
        sum += distribution.stake_of(i);
    }
    assert_eq!(sum, frac(1, 1));
    assert_eq!(distribution.stake_of(3), frac(1, 8));
    assert!(distribution.stake_of(4).is_zero());
}

#[test]
fn exponential_tail_warning() {
    assert!(!ExponentialStakeDistribution::new(4, 1, 2).tail_heavier_than_head());
    assert!(ExponentialStakeDistribution::new(296, 1, 1000).tail_heavier_than_head());
    assert!(!ExponentialStakeDistribution::new(296, 1, 10).tail_heavier_than_head());
}

#[test]
fn uniform_stakes_sum_to_one() {
    let distribution = UniformStakeDistribution::new(7);
    assert_eq!(distribution.num_nodes(), 7);
    let mut sum = BigRational::zero();
    for i in 0..7 {
        assert_eq!(distribution.stake_of(i), frac(1, 7));
        sum += distribution.stake_of(i);
    }
    assert_eq!(sum, frac(1, 1));
    assert!(distribution.stake_of(7).is_zero());
}

#[test]
fn equal_table_matches_uniform() {
    let weights = vec![BigInt::from(12345u64); 9];
    let table = CustomStakeDistribution::from_weights(weights).unwrap();
    let uniform = UniformStakeDistribution::new(9);
    assert_eq!(table.num_nodes(), 9);
    for i in 0..10 {
        let a = table.stake_of(i).to_f64().unwrap();
        let b = uniform.stake_of(i).to_f64().unwrap();
        assert!(approx_equal(a, b));
        assert_eq!(table.stake_of(i), uniform.stake_of(i));
    }
}

#[test]
fn table_normalises_by_total() {
    let weights = vec![BigInt::from(1), BigInt::from(3), BigInt::from(0)];
    let table = CustomStakeDistribution::from_weights(weights).unwrap();
    assert_eq!(table.stake_of(0), frac(1, 4));
    assert_eq!(table.stake_of(1), frac(3, 4));
    assert!(table.stake_of(2).is_zero());
}

#[test]
fn table_of_zeros_is_refused() {
    assert!(CustomStakeDistribution::from_weights(vec![BigInt::from(0); 3]).is_none());
    assert!(CustomStakeDistribution::from_weights(vec![]).is_none());
}

fn big(v: &[i64]) -> Vec<BigInt> {
    v.iter().map(|&x| BigInt::from(x)).collect()
}

#[test]
fn quorums_deduplicate_poorest_seats() {
    // Node weights: 5 and 4 are poorest, then 2, then 1.
    let weights = big(&[50, 40, 30, 0, 2, 1]);
    let sample = ValidatorSample::new(vec![1, 5, 4, 5, 2, 4, 2], &weights);
    assert_eq!(sample.nodes, vec![5, 5, 4, 4, 2, 2, 1]);
    let mut weak = sample.weak_quorum_nodes();
    weak.sort();
    assert_eq!(weak, vec![4, 5]);
    let mut strong = sample.strong_quorum_nodes();
    strong.sort();
    assert_eq!(strong, vec![2, 4, 5]);
    let mut total = sample.total_nodes();
    total.sort();
    assert_eq!(total, vec![1, 2, 4, 5]);
    for n in &weak {
        assert!(strong.contains(n));
    }
    assert_eq!(sample.weak_quorum_stake(&weights), BigInt::from(3));
    assert_eq!(sample.strong_quorum_stake(&weights), BigInt::from(33));
    assert_eq!(sample.total_stake(&weights), BigInt::from(73));
}

#[test]
fn sample_sorts_by_weight() {
    let weights = big(&[7, 3, 9, 1]);
    let sample = ValidatorSample::new(vec![2, 0, 3, 1, 2, 3], &weights);
    assert_eq!(sample.nodes, vec![3, 3, 1, 0, 2, 2]);
    assert!(ValidatorSample::new(vec![], &weights).nodes.is_empty());
}

#[test]
fn strong_quorum_stake_at_least_weak() {
    let weights = big(&[5, 1, 8, 2, 0, 13]);
    let draws = vec![5, 0, 2, 2, 1, 3, 4, 0, 5, 5];
    for size in 0..=draws.len() {
        let sample = ValidatorSample::new(draws[..size].to_vec(), &weights);
        assert!(sample.strong_quorum_stake(&weights) >= sample.weak_quorum_stake(&weights));
        assert!(sample.total_stake(&weights) >= sample.strong_quorum_stake(&weights));
    }
}

#[test]
fn weights_of_each_variant() {
    let uniform = UniformStakeDistribution::new(3).weights();
    assert_eq!(uniform, big(&[1, 1, 1]));
    let geometric = ExponentialStakeDistribution::new(4, 1, 2).weights();
    assert_eq!(geometric, big(&[4, 2, 1, 1]));
    assert_eq!(total_weight(&geometric), BigInt::from(8));
    let geometric = ExponentialStakeDistribution::new(3, 4, 5).weights();
    assert_eq!(geometric, big(&[20, 4, 1]));
}

#[test]
fn shared_sampler_on_all_variants() {
    let uniform = UniformStakeDistribution::new(5).weights();
    for d in 0..5 {
        assert_eq!(sample_node(&uniform, &BigInt::from(d)), d as usize);
    }
    let geometric = ExponentialStakeDistribution::new(4, 1, 2).weights();
    let picks: Vec<usize> = (0..8).map(|d| sample_node(&geometric, &BigInt::from(d))).collect();
    assert_eq!(picks, vec![0, 0, 0, 0, 1, 1, 2, 3]);
}

#[test]
fn table_with_negative_weight_is_refused() {
    assert!(CustomStakeDistribution::from_weights(big(&[3, -1, 4])).is_none());
}

#[test]
fn uniform_without_nodes_has_no_stake() {
    let distribution = UniformStakeDistribution::new(0);
    assert!(distribution.stake_of(0).is_zero());
    assert!(distribution.weights().is_empty());
}

#[test]
fn table_sample_follows_running_sum() {
    let weights = vec![BigInt::from(1), BigInt::from(3), BigInt::from(0), BigInt::from(2)];
    let table = CustomStakeDistribution::from_weights(weights).unwrap();
    let picks: Vec<usize> = (0..6).map(|d| table.sample(&BigInt::from(d))).collect();
    assert_eq!(picks, vec![0, 1, 1, 1, 3, 3]);
}
