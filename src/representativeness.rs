//! Exact probability that a randomly drawn committee holds too many faulty seats.
//!
//! A fault probability `p` is the fraction `p_num / p_den` and a fault threshold
//! is the fraction `t_num / t_den`. Every exact probability over `n` seats is a
//! rational whose denominator divides `p_den ^ n`; the spec functions below give
//! its numerator over that denominator.
use vstd::prelude::*;
use vstd::arithmetic::power::pow;
use num_bigint::BigInt;
use num_rational::BigRational;
use crate::exact::{big_add, big_binomial, big_from, big_lt, big_mul, big_pow, big_sub, binom, int_value, ratio_new, ratio_parts, represents};

verus! {

/// Numerator of `P[Bin(n, a/d) = k]` over the denominator `d^n`.
pub open spec fn pmf_num(n: nat, a: int, d: int, k: nat) -> int {
    if k > n {
        0
    } else {
        binom(n, k) * pow(a, k) * pow(d - a, (n - k) as nat)
    }
}

/// Numerator of `P[Bin(n, a/d) < m]` over the denominator `d^n`.
pub open spec fn below_num(n: nat, a: int, d: int, m: nat) -> int
    decreases m,
{
    if m == 0 {
        0
    } else {
        below_num(n, a, d, (m - 1) as nat) + pmf_num(n, a, d, (m - 1) as nat)
    }
}

/// Numerator of `P[Bin(n, a/d) <= k]` over the denominator `d^n`.
pub open spec fn cdf_num(n: nat, a: int, d: int, k: nat) -> int {
    below_num(n, a, d, k + 1)
}

/// The largest tolerated number of faulty seats among `n`: `floor(n * t_num / t_den)`.
pub open spec fn max_faults(n: nat, t_num: nat, t_den: nat) -> nat {
    (n * t_num / t_den) as nat
}

/// Numerator, over `d^n`, of the probability that more than `max_faults` of `n` seats fail.
pub open spec fn failure_num(n: nat, a: int, d: int, t_num: nat, t_den: nat) -> int {
    pow(d, n) - cdf_num(n, a, d, max_faults(n, t_num, t_den))
}

/// The failure probability over `n` seats is strictly below `mp_num / mp_den`.
pub open spec fn failure_below(n: nat, a: int, d: int, t_num: nat, t_den: nat, mp_num: nat, mp_den: nat) -> bool {
    failure_num(n, a, d, t_num, t_den) * mp_den < mp_num * pow(d, n)
}

proof fn lemma_binom_above(n: nat, k: nat)
    requires
        k > n,
    ensures
        binom(n, k) == 0,
    decreases n,
{
    if n > 0 {
        lemma_binom_above((n - 1) as nat, (k - 1) as nat);
        lemma_binom_above((n - 1) as nat, k);
    }
}

/// Pascal's rule on the terms: each term over `n + 1` trials splits into two over `n`.
proof fn lemma_pmf_step(n: nat, a: int, d: int, k: nat)
    requires
        1 <= k <= n + 1,
    ensures
        pmf_num(n + 1, a, d, k) == a * pmf_num(n, a, d, (k - 1) as nat) + (d - a) * pmf_num(n, a, d, k),
{
    let b = d - a;
    let c1 = binom(n, (k - 1) as nat);
    let c2 = binom(n, k);
    assert(binom(n + 1, k) == c1 + c2);
    let ak1 = pow(a, (k - 1) as nat);
    assert(pow(a, k) == a * ak1) by {
        vstd::arithmetic::power::lemma_pow_adds(a, 1, (k - 1) as nat);
        vstd::arithmetic::power::lemma_pow1(a);
    }
    let e = (n + 1 - k) as nat;
    let be = pow(b, e);
    assert(pmf_num(n + 1, a, d, k) == (c1 + c2) * (a * ak1) * be);
    assert(pmf_num(n, a, d, (k - 1) as nat) == c1 * ak1 * be);
    if k <= n {
        let be1 = pow(b, (n - k) as nat);
        assert(be == b * be1) by {
            vstd::arithmetic::power::lemma_pow_adds(b, 1, (n - k) as nat);
            vstd::arithmetic::power::lemma_pow1(b);
        }
        assert(pmf_num(n, a, d, k) == c2 * (a * ak1) * be1);
        let x = a * ak1;
        let y = b * be1;
        assert((c1 + c2) * x * y == c1 * x * y + c2 * x * y) by (nonlinear_arith);
        assert(c1 * x * y == a * (c1 * ak1 * y)) by (nonlinear_arith)
            requires x == a * ak1;
        assert(c2 * x * y == b * (c2 * x * be1)) by (nonlinear_arith)
            requires y == b * be1;
    } else {
        lemma_binom_above(n, k);
        assert(pmf_num(n, a, d, k) == 0);
        assert((c1 + 0) * (a * ak1) * be == a * (c1 * ak1 * be)) by (nonlinear_arith);
    }
}

proof fn lemma_below_step(n: nat, a: int, d: int, m: nat)
    requires
        m <= n + 1,
    ensures
        below_num(n + 1, a, d, m + 1) == a * below_num(n, a, d, m) + (d - a) * below_num(n, a, d, m + 1),
    decreases m,
{
    let b = d - a;
    if m == 0 {
        assert(pow(b, n + 1) == b * pow(b, n)) by {
            vstd::arithmetic::power::lemma_pow_adds(b, 1, n);
            vstd::arithmetic::power::lemma_pow1(b);
        }
        assert(pow(a, 0) == 1) by {
            vstd::arithmetic::power::lemma_pow0(a);
        }
        assert(binom(n + 1, 0) == 1);
        assert(binom(n, 0) == 1);
        assert(pmf_num(n + 1, a, d, 0) == 1 * 1 * pow(b, n + 1));
        assert(pmf_num(n, a, d, 0) == 1 * 1 * pow(b, n));
        assert(below_num(n, a, d, 0) == 0);
        assert(below_num(n + 1, a, d, 0) == 0);
        assert(below_num(n + 1, a, d, 1) == pmf_num(n + 1, a, d, 0));
        assert(below_num(n, a, d, 1) == pmf_num(n, a, d, 0));
    } else {
        lemma_below_step(n, a, d, (m - 1) as nat);
        lemma_pmf_step(n, a, d, m);
        let x = below_num(n, a, d, (m - 1) as nat);
        let y = below_num(n, a, d, m);
        let p = pmf_num(n, a, d, (m - 1) as nat);
        let q = pmf_num(n, a, d, m);
        assert(y == x + p);
        assert(below_num(n, a, d, m + 1) == y + q);
        assert(below_num(n + 1, a, d, m + 1) == below_num(n + 1, a, d, m) + pmf_num(n + 1, a, d, m));
        assert(below_num(n + 1, a, d, m) == a * x + b * y);
        assert(pmf_num(n + 1, a, d, m) == a * p + b * q);
        assert(a * y + b * (y + q) == a * x + b * y + a * p + b * q) by (nonlinear_arith)
            requires y == x + p;
    }
}

/// The probabilities of all outcomes `0..=n` add up to exactly one: their numerators
/// over `d^n` add up to `d^n`.
pub proof fn lemma_pmf_sums_to_one(n: nat, a: int, d: int)
    ensures
        cdf_num(n, a, d, n) == pow(d, n),
    decreases n,
{
    let b = d - a;
    if n == 0 {
        vstd::arithmetic::power::lemma_pow0(a);
        vstd::arithmetic::power::lemma_pow0(b);
        vstd::arithmetic::power::lemma_pow0(d);
        assert(binom(0, 0) == 1);
        assert(below_num(0, a, d, 0) == 0);
        assert(below_num(0, a, d, 1) == pmf_num(0, a, d, 0));
        assert(pmf_num(0, a, d, 0) == 1 * 1 * 1);
    } else {
        let m = (n - 1) as nat;
        lemma_pmf_sums_to_one(m, a, d);
        lemma_below_step(m, a, d, n);
        lemma_binom_above(m, n);
        assert(pmf_num(m, a, d, n) == 0);
        assert(below_num(m, a, d, n + 1) == below_num(m, a, d, n));
        assert(pow(d, n) == d * pow(d, m)) by {
            vstd::arithmetic::power::lemma_pow_adds(d, 1, m);
            vstd::arithmetic::power::lemma_pow1(d);
        }
        let w = pow(d, m);
        assert(a * w + (d - a) * w == d * w) by (nonlinear_arith);
    }
}

proof fn lemma_pow_non_negative(b: int, e: nat)
    requires
        b >= 0,
    ensures
        pow(b, e) >= 0,
    decreases e,
{
    reveal(pow);
    if e > 0 {
        lemma_pow_non_negative(b, (e - 1) as nat);
        let x = pow(b, (e - 1) as nat);
        assert(b * x >= 0) by (nonlinear_arith)
            requires b >= 0, x >= 0;
    }
}

proof fn lemma_below_monotone(n: nat, a: int, d: int, m1: nat, m2: nat)
    requires
        0 <= a <= d,
        m1 <= m2,
    ensures
        0 <= below_num(n, a, d, m1) <= below_num(n, a, d, m2),
    decreases m2,
{
    if m2 > m1 {
        lemma_below_monotone(n, a, d, m1, (m2 - 1) as nat);
    }
    if m2 > 0 {
        let k = (m2 - 1) as nat;
        if k <= n {
            lemma_pow_non_negative(a, k);
            lemma_pow_non_negative(d - a, (n - k) as nat);
            let c = binom(n, k) as int;
            let x = pow(a, k);
            let y = pow(d - a, (n - k) as nat);
            assert(c * x * y >= 0) by (nonlinear_arith)
                requires c >= 0, x >= 0, y >= 0;
        }
        if m2 == m1 {
            lemma_below_monotone(n, a, d, 0, k);
        }
    }
}

/// The failure probability is a probability: its numerator over `d^n` lies between
/// zero and `d^n`.
pub proof fn lemma_failure_in_unit_interval(n: nat, a: int, d: int, t_num: nat, t_den: nat)
    requires
        0 <= a <= d,
        0 < t_den,
        t_num <= t_den,
    ensures
        0 <= failure_num(n, a, d, t_num, t_den) <= pow(d, n),
{
    let m = max_faults(n, t_num, t_den);
    assert(n * t_num <= n * t_den) by (nonlinear_arith)
        requires t_num <= t_den;
    assert(m <= n) by (nonlinear_arith)
        requires m == n * t_num / t_den, n * t_num <= n * t_den, t_den > 0;
    lemma_below_monotone(n, a, d, m + 1, n + 1);
    lemma_pmf_sums_to_one(n, a, d);
}

proof fn lemma_below_saturates(n: nat, a: int, d: int, m: nat)
    requires
        m >= n + 1,
    ensures
        below_num(n, a, d, m) == below_num(n, a, d, n + 1),
    decreases m,
{
    if m > n + 1 {
        lemma_below_saturates(n, a, d, (m - 1) as nat);
    }
}

/// The cumulative distribution never decreases in `k` and stays within `[0, 1]`: its
/// numerators over `d^n` run from zero up to `d^n`.
pub proof fn lemma_cdf_monotone_bounded(n: nat, a: int, d: int, k1: nat, k2: nat)
    requires
        0 <= a <= d,
        k1 <= k2,
    ensures
        0 <= cdf_num(n, a, d, k1) <= cdf_num(n, a, d, k2) <= pow(d, n),
{
    lemma_below_monotone(n, a, d, k1 + 1, k2 + 1);
    lemma_pmf_sums_to_one(n, a, d);
    if k2 + 1 <= n + 1 {
        lemma_below_monotone(n, a, d, k2 + 1, n + 1);
    } else {
        lemma_below_saturates(n, a, d, k2 + 1);
    }
}

/// A higher fault threshold over the same denominator never raises the failure probability.
pub proof fn lemma_failure_non_increasing_in_threshold(n: nat, a: int, d: int, t1: nat, t2: nat, t_den: nat)
    requires
        0 <= a <= d,
        0 < t_den,
        t1 <= t2,
    ensures
        failure_num(n, a, d, t2, t_den) <= failure_num(n, a, d, t1, t_den),
{
    assert(n * t1 <= n * t2) by (nonlinear_arith)
        requires t1 <= t2;
    vstd::arithmetic::div_mod::lemma_div_is_ordered((n * t1) as int, (n * t2) as int, t_den as int);
    lemma_cdf_monotone_bounded(n, a, d, max_faults(n, t1, t_den), max_faults(n, t2, t_den));
}

fn pmf_numerator(n: u32, p_num: u32, p_den: u32, k: u32) -> (r: BigInt)
    requires
        p_num <= p_den,
    ensures
        int_value(r) == pmf_num(n as nat, p_num as int, p_den as int, k as nat),
{
    if k > n {
        return big_from(0);
    }
    let c = big_binomial(n, k);
    let a = big_from(p_num as u64);
    let b = big_from((p_den - p_num) as u64);
    let ak = big_pow(&a, k);
    let bk = big_pow(&b, n - k);
    let t = big_mul(&c, &ak);
    big_mul(&t, &bk)
}

fn cdf_numerator(n: u32, p_num: u32, p_den: u32, k: u32) -> (r: BigInt)
    requires
        p_num <= p_den,
    ensures
        int_value(r) == cdf_num(n as nat, p_num as int, p_den as int, k as nat),
{
    let mut acc = big_from(0);
    let mut i: u64 = 0;
    while i <= k as u64
        invariant
            i <= k as u64 + 1,
            p_num <= p_den,
            int_value(acc) == below_num(n as nat, p_num as int, p_den as int, i as nat),
        decreases k as u64 + 1 - i,
    {
        let term = pmf_numerator(n, p_num, p_den, i as u32);
        acc = big_add(&acc, &term);
        i = i + 1;
    }
    acc
}

/// Probability that `k` of `n` independent trials succeed, each with probability
/// `p_num / p_den`; zero when `k > n`.
pub fn pmf(n: u32, p_num: u32, p_den: u32, k: u32) -> (r: BigRational)
    requires
        0 < p_den,
        p_num <= p_den,
    ensures
        represents(r, pmf_num(n as nat, p_num as int, p_den as int, k as nat), pow(p_den as int, n as nat)),
        k > n ==> ratio_parts(r).0 == 0,
{
    let num = pmf_numerator(n, p_num, p_den, k);
    let d = big_from(p_den as u64);
    proof {
        vstd::arithmetic::power::lemma_pow_positive(p_den as int, n as nat);
    }
    let den = big_pow(&d, n);
    let r = ratio_new(num, den);
    proof {
        if k > n {
            let x = ratio_parts(r).0;
            let y = int_value(den);
            assert(x * y == 0);
            assert(x == 0) by (nonlinear_arith)
                requires x * y == 0, y != 0;
        }
    }
    r
}

/// Probability that at most `k` of `n` independent trials succeed, each with
/// probability `p_num / p_den`.
pub fn cdf(n: u32, p_num: u32, p_den: u32, k: u32) -> (r: BigRational)
    requires
        0 < p_den,
        p_num <= p_den,
    ensures
        represents(r, cdf_num(n as nat, p_num as int, p_den as int, k as nat), pow(p_den as int, n as nat)),
{
    let num = cdf_numerator(n, p_num, p_den, k);
    let d = big_from(p_den as u64);
    proof {
        vstd::arithmetic::power::lemma_pow_positive(p_den as int, n as nat);
    }
    let den = big_pow(&d, n);
    ratio_new(num, den)
}

/// `floor(sample_size * t_num / t_den)`.
pub fn tolerated_faults(sample_size: u32, t_num: u32, t_den: u32) -> (r: u32)
    requires
        0 < t_den,
        t_num <= t_den,
    ensures
        r == max_faults(sample_size as nat, t_num as nat, t_den as nat),
        r <= sample_size,
{
    proof {
        assert(sample_size as u64 * t_num as u64 <= 0xffff_ffff * 0xffff_ffffu64) by (nonlinear_arith)
            requires sample_size <= 0xffff_ffffu32, t_num <= 0xffff_ffffu32;
    }
    let prod: u64 = sample_size as u64 * t_num as u64;
    let q: u64 = prod / t_den as u64;
    proof {
        assert(prod <= sample_size as u64 * t_den as u64) by (nonlinear_arith)
            requires prod == sample_size as u64 * t_num as u64, t_num <= t_den;
        assert(q <= sample_size as u64) by (nonlinear_arith)
            requires q == prod / t_den as u64, prod <= sample_size as u64 * t_den as u64, t_den > 0;
    }
    q as u32
}

fn failure_numerator(sample_size: u32, f_num: u32, f_denom: u32, t_num: u32, t_den: u32) -> (r: BigInt)
    requires
        0 < f_denom,
        f_num <= f_denom,
        0 < t_den,
        t_num <= t_den,
    ensures
        int_value(r) == failure_num(sample_size as nat, f_num as int, f_denom as int, t_num as nat, t_den as nat),
{
    let m = tolerated_faults(sample_size, t_num, t_den);
    let c = cdf_numerator(sample_size, f_num, f_denom, m);
    let d = big_from(f_denom as u64);
    let all = big_pow(&d, sample_size);
    big_sub(&all, &c)
}

/// Probability that a committee of `sample_size` seats, each faulty independently with
/// probability `f_num / f_denom`, holds more than `floor(sample_size * t_num / t_den)`
/// faulty seats.
pub fn failure_probability(sample_size: u32, f_num: u32, f_denom: u32, t_num: u32, t_den: u32) -> (r: BigRational)
    requires
        0 < f_denom,
        f_num <= f_denom,
        0 < t_den,
        t_num <= t_den,
    ensures
        represents(
            r,
            failure_num(sample_size as nat, f_num as int, f_denom as int, t_num as nat, t_den as nat),
            pow(f_denom as int, sample_size as nat),
        ),
{
    let num = failure_numerator(sample_size, f_num, f_denom, t_num, t_den);
    let d = big_from(f_denom as u64);
    proof {
        vstd::arithmetic::power::lemma_pow_positive(f_denom as int, sample_size as nat);
    }
    let den = big_pow(&d, sample_size);
    ratio_new(num, den)
}

/// The smallest committee size `s` in `1..=max_sample_size` whose failure probability
/// is strictly below `mp_num / mp_den`, or `None` when there is none.
pub fn min_sample_size(
    f_num: u32,
    f_denom: u32,
    t_num: u32,
    t_den: u32,
    mp_num: u64,
    mp_den: u64,
    max_sample_size: u32,
) -> (r: Option<u32>)
    requires
        0 < f_denom,
        f_num <= f_denom,
        0 < t_den,
        t_num <= t_den,
        0 < mp_den,
    ensures
        match r {
            Some(s) => {
                &&& 1 <= s <= max_sample_size
                &&& failure_below(s as nat, f_num as int, f_denom as int, t_num as nat, t_den as nat, mp_num as nat, mp_den as nat)
                &&& forall|m: nat| 1 <= m < s ==> !failure_below(m, f_num as int, f_denom as int, t_num as nat, t_den as nat, mp_num as nat, mp_den as nat)
            },
            None => forall|m: nat| 1 <= m <= max_sample_size
                ==> !failure_below(m, f_num as int, f_denom as int, t_num as nat, t_den as nat, mp_num as nat, mp_den as nat),
        },
{
    let bound = big_from(mp_den as u64);
    let limit = big_from(mp_num as u64);
    let d = big_from(f_denom as u64);
    let mut n: u64 = 1;
    while n <= max_sample_size as u64
        invariant
            1 <= n <= max_sample_size as u64 + 1,
            0 < f_denom,
            f_num <= f_denom,
            0 < t_den,
            t_num <= t_den,
            int_value(bound) == mp_den,
            int_value(limit) == mp_num,
            int_value(d) == f_denom,
            forall|m: nat| 1 <= m < n ==> !failure_below(m, f_num as int, f_denom as int, t_num as nat, t_den as nat, mp_num as nat, mp_den as nat),
        decreases max_sample_size as u64 + 1 - n,
    {
        let num = failure_numerator(n as u32, f_num, f_denom, t_num, t_den);
        let den = big_pow(&d, n as u32);
        let lhs = big_mul(&num, &bound);
        let rhs = big_mul(&limit, &den);
        if big_lt(&lhs, &rhs) {
            return Some(n as u32);
        }
        n = n + 1;
    }
    None
}

/// The draw `k` of faulty seats out of `n` exceeds the threshold `t_num / t_den`:
/// `k / n > t_num / t_den`.
pub open spec fn exceeds(k: u64, n: u64, t_num: u64, t_den: u64) -> bool {
    k as int * t_den as int > n as int * t_num as int
}

/// Number of the draws in `draws` that exceed the threshold.
pub open spec fn failures(draws: Seq<u64>, n: u64, t_num: u64, t_den: u64) -> nat
    decreases draws.len(),
{
    if draws.len() == 0 {
        0
    } else {
        failures(draws.drop_last(), n, t_num, t_den)
            + if exceeds(draws.last(), n, t_num, t_den) { 1nat } else { 0nat }
    }
}

proof fn lemma_u64_product(x: u64, y: u64)
    ensures
        x as u128 * y as u128 <= 0xffff_ffff_ffff_ffff_ffff_ffff_ffff_ffffu128,
{
    assert(x as int * y as int <= 0xffff_ffff_ffff_ffff * 0xffff_ffff_ffff_ffff) by (nonlinear_arith)
        requires x <= 0xffff_ffff_ffff_ffffu64, y <= 0xffff_ffff_ffff_ffffu64;
}

/// Counts the draws of faulty seats, each out of `n` seats, whose fraction `k / n`
/// strictly exceeds the fault threshold `t_num / t_den`. The Monte Carlo estimate of the
/// failure probability is this count over the number of draws.
pub fn count_failures(draws: &Vec<u64>, n: u64, t_num: u64, t_den: u64) -> (r: usize)
    requires
        0 < n,
        0 < t_den,
    ensures
        r == failures(draws@, n, t_num, t_den),
{
    let mut count: usize = 0;
    let mut i: usize = 0;
    while i < draws.len()
        invariant
            i <= draws@.len(),
            count <= i,
            count == failures(draws@.take(i as int), n, t_num, t_den),
        decreases draws@.len() - i,
    {
        assert(draws@.take(i as int + 1).drop_last() == draws@.take(i as int));
        let k = draws[i];
        proof {
            lemma_u64_product(k, t_den);
            lemma_u64_product(n, t_num);
        }
        let lhs: u128 = k as u128 * t_den as u128;
        let rhs: u128 = n as u128 * t_num as u128;
        if lhs > rhs {
            count = count + 1;
        }
        i = i + 1;
    }
    assert(draws@.take(i as int) == draws@);
    count
}

} // verus!
