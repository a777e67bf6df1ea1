//! Arbitrary-precision integers and rationals, taken from `num-bigint`,
//! `num-integer` and `num-rational`, with the facts this library relies on.
use vstd::prelude::*;
use num_bigint::BigInt;
use num_rational::Ratio;

verus! {

#[verifier::external_type_specification]
#[verifier::external_body]
pub struct ExBigInt(BigInt);

#[verifier::external_type_specification]
#[verifier::external_body]
#[verifier::reject_recursive_types(T)]
pub struct ExRatio<T>(Ratio<T>);

/// The integer that a `BigInt` holds.
pub uninterp spec fn int_value(b: BigInt) -> int;

/// The numerator and the (positive) denominator of a `BigRational` in lowest terms.
pub uninterp spec fn ratio_parts(r: Ratio<BigInt>) -> (int, int);

/// `r` stands for the rational number `num / den`.
pub open spec fn represents(r: Ratio<BigInt>, num: int, den: int) -> bool {
    ratio_parts(r).1 > 0 && ratio_parts(r).0 * den == num * ratio_parts(r).1
}

/// The binomial coefficient, by Pascal's rule; zero when `k > n`.
pub open spec fn binom(n: nat, k: nat) -> nat
    decreases n,
{
    if k == 0 {
        1
    } else if n == 0 {
        0
    } else {
        binom((n - 1) as nat, (k - 1) as nat) + binom((n - 1) as nat, k)
    }
}

/// Relies on `BigInt::from(u64)`: the same integer.
#[verifier::external_body]
pub fn big_from(x: u64) -> (r: BigInt)
    ensures
        int_value(r) == x,
{
    BigInt::from(x)
}

/// Relies on `BigInt::clone`: a copy of the same integer.
#[verifier::external_body]
pub fn big_clone(a: &BigInt) -> (r: BigInt)
    ensures
        int_value(r) == int_value(*a),
{
    a.clone()
}

/// Relies on `BigInt + BigInt`: the sum.
#[verifier::external_body]
pub fn big_add(a: &BigInt, b: &BigInt) -> (r: BigInt)
    ensures
        int_value(r) == int_value(*a) + int_value(*b),
{
    a + b
}

/// Relies on `BigInt - BigInt`: the difference.
#[verifier::external_body]
pub fn big_sub(a: &BigInt, b: &BigInt) -> (r: BigInt)
    ensures
        int_value(r) == int_value(*a) - int_value(*b),
{
    a - b
}

/// Relies on `BigInt * BigInt`: the product.
#[verifier::external_body]
pub fn big_mul(a: &BigInt, b: &BigInt) -> (r: BigInt)
    ensures
        int_value(r) == int_value(*a) * int_value(*b),
{
    a * b
}

/// Relies on `BigInt::pow`: `a` raised to `e`.
#[verifier::external_body]
pub fn big_pow(a: &BigInt, e: u32) -> (r: BigInt)
    ensures
        int_value(r) == vstd::arithmetic::power::pow(int_value(*a), e as nat),
{
    a.pow(e)
}

/// Relies on `BigInt < BigInt`: the order of the integers.
#[verifier::external_body]
pub fn big_lt(a: &BigInt, b: &BigInt) -> (r: bool)
    ensures
        r == (int_value(*a) < int_value(*b)),
{
    a < b
}

/// Relies on `num_integer::binomial` on `BigInt`: the number of `k`-subsets of `n` items.
#[verifier::external_body]
pub fn big_binomial(n: u32, k: u32) -> (r: BigInt)
    ensures
        int_value(r) == binom(n as nat, k as nat),
{
    num_integer::binomial(BigInt::from(n), BigInt::from(k))
}

/// Relies on `Ratio::new`: the fraction `num / den` in lowest terms, with a positive
/// denominator. It panics on a zero denominator.
#[verifier::external_body]
pub fn ratio_new(num: BigInt, den: BigInt) -> (r: Ratio<BigInt>)
    requires
        int_value(den) != 0,
    ensures
        ratio_parts(r).1 > 0,
        ratio_parts(r).0 * int_value(den) == int_value(num) * ratio_parts(r).1,
{
    Ratio::new(num, den)
}

} // verus!
