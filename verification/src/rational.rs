//! Exact rational and natural numbers of any size.
//!
//! The numbers themselves are those of `num-rational` and `num-bigint`. Each function below makes
//! one kind of call; their contracts speak of a rational by its numerator and its denominator, and
//! of a natural by its value.
use num_bigint::{BigInt, BigUint};
use num_rational::BigRational;
use num_traits::{Signed, ToPrimitive, Zero};
use vstd::arithmetic::power2::pow2;
use vstd::prelude::*;

use crate::dyadic::{dyadic, units};
use crate::skv_header::finite_bits;

verus! {

#[verifier::external_type_specification]
#[verifier::external_body]
#[verifier::reject_recursive_types(T)]
pub struct ExRatio<T>(num_rational::Ratio<T>);

#[verifier::external_type_specification]
#[verifier::external_body]
pub struct ExBigInt(num_bigint::BigInt);

#[verifier::external_type_specification]
#[verifier::external_body]
pub struct ExBigUint(num_bigint::BigUint);

/// The value of a rational. Every rational of this crate is in lowest terms with a positive
/// denominator, as the operations of `Ratio` leave it, so that its value determines it.
pub uninterp spec fn amount(q: BigRational) -> real;

/// The numerator that `Ratio::numer` gives for a value.
pub uninterp spec fn numer_of(value: real) -> int;

/// The denominator that `Ratio::denom` gives for a value.
pub uninterp spec fn denom_of(value: real) -> int;

/// The bits of the double that `Ratio::to_f64` gives for a value; none where it gives none.
pub uninterp spec fn nearest(value: real) -> Option<u64>;

/// The value of a natural.
pub uninterp spec fn natural_of(n: BigUint) -> nat;

/// How many binary digits a natural has.
pub open spec fn bit_length(n: nat) -> nat
    decreases n,
{
    if n == 0 {
        0
    } else {
        1 + bit_length(n / 2)
    }
}

pub open spec fn magnitude(n: int) -> nat {
    if n < 0 {
        (-n) as nat
    } else {
        n as nat
    }
}

/// The binary digits of the numerator of a value.
pub open spec fn numer_digits(value: real) -> nat {
    bit_length(magnitude(numer_of(value)))
}

/// The binary digits of the denominator of a value.
pub open spec fn denom_digits(value: real) -> nat {
    bit_length(magnitude(denom_of(value)))
}

/// `Ratio::from_integer` on `BigInt::from`: the whole number itself.
#[verifier::external_body]
pub(crate) fn whole(n: i128) -> (r: BigRational)
    ensures
        amount(r) == n as real,
{
    BigRational::from_integer(BigInt::from(n))
}

/// `Ratio::from_integer` on one shifted left with `BigInt`'s `<<`: a power of two.
#[verifier::external_body]
pub(crate) fn power(k: usize) -> (r: BigRational)
    ensures
        amount(r) == pow2(k as nat) as real,
{
    BigRational::from_integer(BigInt::from(1u8) << k)
}

/// `Clone` of a rational: an equal one.
#[verifier::external_body]
pub(crate) fn duplicate(q: &BigRational) -> (r: BigRational)
    ensures
        r == q,
{
    q.clone()
}

/// The same rational, its integers rebuilt by `BigInt::from_bytes_le` from what
/// `BigInt::to_bytes_le` gives, so that they keep no spare capacity of larger ones.
#[verifier::external_body]
pub(crate) fn rebuilt(q: &BigRational) -> (r: BigRational)
    ensures
        amount(r) == amount(*q),
{
    let (ns, nb) = q.numer().to_bytes_le();
    let (ds, db) = q.denom().to_bytes_le();
    BigRational::new_raw(BigInt::from_bytes_le(ns, &nb), BigInt::from_bytes_le(ds, &db))
}

/// `+` of `Ratio`: the sum, in lowest terms.
#[verifier::external_body]
pub(crate) fn plus(a: &BigRational, b: &BigRational) -> (r: BigRational)
    ensures
        amount(r) == amount(*a) + amount(*b),
{
    a + b
}

/// `-` of `Ratio`: the difference, in lowest terms.
#[verifier::external_body]
pub(crate) fn minus(a: &BigRational, b: &BigRational) -> (r: BigRational)
    ensures
        amount(r) == amount(*a) - amount(*b),
{
    a - b
}

/// `*` of `Ratio`: the product, in lowest terms.
#[verifier::external_body]
pub(crate) fn times(a: &BigRational, b: &BigRational) -> (r: BigRational)
    ensures
        amount(r) == amount(*a) * amount(*b),
{
    a * b
}

/// `/` of `Ratio`, which panics on a zero divisor: the quotient, in lowest terms. Its terms are
/// products of the terms of both with what they share taken out, so that they have no more digits
/// than those together.
#[verifier::external_body]
pub(crate) fn over(a: &BigRational, b: &BigRational) -> (r: BigRational)
    requires
        amount(*b) != 0real,
    ensures
        amount(r) == amount(*a) / amount(*b),
        numer_digits(amount(r)) <= numer_digits(amount(*a)) + denom_digits(amount(*b)),
        denom_digits(amount(r)) <= denom_digits(amount(*a)) + numer_digits(amount(*b)),
{
    a / b
}

/// `>=` of `Ratio`, which compares the values.
#[verifier::external_body]
pub(crate) fn at_least(a: &BigRational, b: &BigRational) -> (r: bool)
    ensures
        r == (amount(*a) >= amount(*b)),
{
    a >= b
}

/// `Zero::is_zero` of `Ratio`.
#[verifier::external_body]
pub(crate) fn is_nothing(q: &BigRational) -> (r: bool)
    ensures
        r == (amount(*q) == 0real),
{
    q.is_zero()
}

/// `Signed::abs` of `Ratio`: the value without its sign.
#[verifier::external_body]
pub(crate) fn unsigned(q: &BigRational) -> (r: BigRational)
    ensures
        amount(r) == (if amount(*q) < 0real {
            0real - amount(*q)
        } else {
            amount(*q)
        }),
{
    q.abs()
}

/// `BigInt::bits` of `Ratio::numer`: the binary digits of the numerator, without its sign.
#[verifier::external_body]
pub(crate) fn numer_bits(q: &BigRational) -> (r: u64)
    ensures
        r == bit_length(magnitude(numer_of(amount(*q)))),
{
    q.numer().bits()
}

/// `BigInt::bits` of `Ratio::denom`: the binary digits of the denominator, without its sign.
#[verifier::external_body]
pub(crate) fn denom_bits(q: &BigRational) -> (r: u64)
    ensures
        r == bit_length(magnitude(denom_of(amount(*q)))),
{
    q.denom().bits()
}

/// `ToPrimitive::to_f64` of `Ratio`, and the bits of what it gives. Which double that is stays
/// unsaid; it is the same one for the same value.
#[verifier::external_body]
pub(crate) fn to_double(q: &BigRational) -> (r: Option<u64>)
    ensures
        r == nearest(amount(*q)),
{
    match q.to_f64() {
        Some(v) => Some(v.to_bits()),
        None => None,
    }
}

/// `BigUint::from` of a machine word.
#[verifier::external_body]
pub(crate) fn natural(n: u64) -> (r: BigUint)
    ensures
        natural_of(r) == n,
{
    BigUint::from(n)
}

/// `Clone` of a natural: an equal one.
#[verifier::external_body]
pub(crate) fn natural_copy(n: &BigUint) -> (r: BigUint)
    ensures
        r == n,
{
    n.clone()
}

/// `<<` of `BigUint`: so many doublings.
#[verifier::external_body]
pub(crate) fn natural_shifted(n: &BigUint, k: usize) -> (r: BigUint)
    ensures
        natural_of(r) == natural_of(*n) * pow2(k as nat),
{
    n << k
}

/// `+` of `BigUint`.
#[verifier::external_body]
pub(crate) fn natural_sum(a: &BigUint, b: &BigUint) -> (r: BigUint)
    ensures
        natural_of(r) == natural_of(*a) + natural_of(*b),
{
    a + b
}

/// `>` of `BigUint`.
#[verifier::external_body]
pub(crate) fn natural_above(a: &BigUint, b: &BigUint) -> (r: bool)
    ensures
        r == (natural_of(*a) > natural_of(*b)),
{
    a > b
}

/// `BigUint::bits`: the binary digits of a natural.
#[verifier::external_body]
pub(crate) fn natural_bits(n: &BigUint) -> (r: u64)
    ensures
        r == bit_length(natural_of(*n)),
{
    n.bits()
}

/// `Ratio::new` on two naturals, which panics on a zero denominator: their quotient, in lowest
/// terms.
#[verifier::external_body]
pub(crate) fn quotient(a: &BigUint, b: &BigUint) -> (r: BigRational)
    requires
        natural_of(*b) > 0,
    ensures
        amount(r) == (natural_of(*a) as real) / (natural_of(*b) as real),
{
    BigRational::new(BigInt::from(a.clone()), BigInt::from(b.clone()))
}

/// The value of a finite double.
pub open spec fn value_of(bits: u64) -> real {
    (units(bits) as real) / (pow2(1074) as real)
}

/// The exact value of a finite double.
pub(crate) fn exact(bits: u64) -> (r: BigRational)
    requires
        finite_bits(bits),
    ensures
        amount(r) == value_of(bits),
{
    match dyadic(bits) {
        Some((c, e)) => {
            let unit = power(1074);
            let place = power((e + 1074) as usize);
            let scaled = times(&whole(c), &place);
            proof {
                let p = pow2((e + 1074) as nat) as int;
                lemma_product(c as int, p);
                vstd::arithmetic::power2::lemma_pow2_pos(1074);
            }
            over(&scaled, &unit)
        },
        None => {
            assert(false);
            whole(0)
        },
    }
}

proof fn lemma_product(a: int, b: int)
    ensures
        (a as real) * (b as real) == (a * b) as real,
{
    assert((a as real) * (b as real) == (a * b) as real) by (nonlinear_arith);
}

} // verus!
