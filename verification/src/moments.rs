//! Central moments: an ordinary floating state, and a bounded exact-rational one that takes over
//! where binary64 would lose it.
//!
//! Weights and central M2 of the floating state use a common power-of-two scale. Scaling does not
//! change M2/W and prevents uniformly tiny positive coverage losing variance. The floating
//! arithmetic itself is the caller's: its outcomes come in as arguments.
use num_rational::BigRational;
use vstd::arithmetic::power2::{lemma_pow2_adds, lemma_pow2_pos, pow2};
use vstd::prelude::*;

use crate::algebra::{
    lemma_drawn_out, lemma_mean, lemma_nothing, lemma_product_sign, lemma_quotient,
    lemma_quotient_sign, lemma_second, lemma_square_sign,
};
use crate::dyadic::{
    field_of, lemma_grows, lemma_powers, lemma_twice, magnitude_of, place_of, units,
};
use crate::error::Error;
use crate::rational::{
    amount, at_least, denom_bits, denom_digits, duplicate, exact, is_nothing, minus, nearest,
    numer_bits, numer_digits, over, plus, power, rebuilt, times, to_double, value_of, whole,
};
use crate::skv_header::{finite_bits, is_finite_bits};

verus! {

/// State operands have numerators and denominators of at most so many binary digits; the fixed
/// central merge expression has bounded intermediate products. No raw-square subtraction.
pub const MOMENT_INTEGER_BITS: u64 = 8192;

/// A weight, its mean and its central second moment.
pub ghost struct Central {
    pub weight: real,
    pub mean: real,
    pub m2: real,
}

/// Rare exact central states are capped independently of the number of cells.
pub struct ExactMoments {
    weight: BigRational,
    mean: BigRational,
    m2: BigRational,
}

/// Nothing weighed yet.
pub open spec fn empty_state() -> Central {
    Central { weight: 0real, mean: 0real, m2: 0real }
}

/// One value with its weight.
pub open spec fn single(value: real, weight: real) -> Central {
    Central { weight, mean: value, m2: 0real }
}

/// Two central states as one.
pub open spec fn united(a: Central, b: Central) -> Central {
    if b.weight == 0real {
        a
    } else if a.weight == 0real {
        b
    } else {
        let total = a.weight + b.weight;
        let delta = b.mean - a.mean;
        Central {
            weight: total,
            mean: a.mean + delta * b.weight / total,
            m2: a.m2 + b.m2 + delta * delta * a.weight * b.weight / total,
        }
    }
}

pub open spec fn within_digits(value: real) -> bool {
    &&& numer_digits(value) <= MOMENT_INTEGER_BITS
    &&& denom_digits(value) <= MOMENT_INTEGER_BITS
}

/// What an exact state is refused for.
pub open spec fn central_refusal(c: Central) -> Option<Error> {
    if c.weight < 0real || c.m2 < 0real {
        Some(Error::InvalidCentralState)
    } else if !(within_digits(c.weight) && within_digits(c.mean) && within_digits(c.m2)) {
        Some(Error::MomentBudget)
    } else {
        None
    }
}

/// The state after taking in another, or why it cannot be.
pub open spec fn taken(a: Central, b: Central) -> Result<Central, Error> {
    if b.weight == 0real {
        Ok(a)
    } else {
        match central_refusal(united(a, b)) {
            Some(e) => Err(e),
            None => Ok(united(a, b)),
        }
    }
}

/// Uniting two states adds their weights, their weighted means, and their second moments about
/// zero, so that it gives the central state of both together.
pub proof fn uniting_adds_moments(a: Central, b: Central)
    requires
        a.weight >= 0real,
        b.weight >= 0real,
        a.weight == 0real ==> a.m2 == 0real,
        b.weight == 0real ==> b.m2 == 0real,
    ensures
        united(a, b).weight == a.weight + b.weight,
        united(a, b).weight * united(a, b).mean == a.weight * a.mean + b.weight * b.mean,
        united(a, b).m2 + united(a, b).weight * (united(a, b).mean * united(a, b).mean) == (a.m2
            + a.weight * (a.mean * a.mean)) + (b.m2 + b.weight * (b.mean * b.mean)),
{
    let c = united(a, b);
    if b.weight == 0real {
        lemma_nothing(b.mean);
        lemma_nothing(b.mean * b.mean);
    } else if a.weight == 0real {
        lemma_nothing(a.mean);
        lemma_nothing(a.mean * a.mean);
    } else {
        let w = a.weight + b.weight;
        let d = b.mean - a.mean;
        let t = b.weight / w;
        lemma_quotient(b.weight, w);
        lemma_drawn_out(d, b.weight, w);
        lemma_drawn_out(d * d * a.weight, b.weight, w);
        lemma_mean(a.weight, a.mean, b.weight, b.mean, t, w, d);
        lemma_second(a.weight, a.mean, b.weight, b.mean, t, w, d, c.mean);
    }
}

/// Uniting never takes from the second central moment of a part that weighs anything.
pub proof fn uniting_never_shrinks(a: Central, b: Central)
    requires
        a.weight >= 0real,
        b.weight >= 0real,
        a.m2 >= 0real,
        b.m2 >= 0real,
    ensures
        a.weight != 0real ==> united(a, b).m2 >= a.m2,
        b.weight != 0real ==> united(a, b).m2 >= b.m2,
        united(a, b).weight >= 0real,
        united(a, b).m2 >= 0real,
{
    if a.weight > 0real && b.weight > 0real {
        let d = b.mean - a.mean;
        let w = a.weight + b.weight;
        lemma_square_sign(d);
        lemma_product_sign(d * d, a.weight);
        lemma_quotient_sign(b.weight, w);
        lemma_product_sign(d * d * a.weight, b.weight / w);
        lemma_drawn_out(d * d * a.weight, b.weight, w);
    }
}

fn within(q: &BigRational) -> (r: bool)
    ensures
        r == within_digits(amount(*q)),
{
    numer_bits(q) <= MOMENT_INTEGER_BITS && denom_bits(q) <= MOMENT_INTEGER_BITS
}

/// The binary exponent of a positive value, by the digits of its fraction.
pub open spec fn exponent_of(value: real) -> int {
    let e = numer_digits(value) - denom_digits(value);
    if value < scale_of(e) {
        e - 1
    } else {
        e
    }
}

/// Two to the power of `e`.
pub open spec fn scale_of(e: int) -> real {
    if e >= 0 {
        pow2(e as nat) as real
    } else {
        1real / (pow2((-e) as nat) as real)
    }
}

/// A value divided by two to the power of `shift`.
pub open spec fn normalized(value: real, shift: int) -> real {
    if shift >= 0 {
        value / (pow2(shift as nat) as real)
    } else {
        value * (pow2((-shift) as nat) as real)
    }
}

/// The exponent of the power of two that the root of a squared quantity is scaled by.
pub open spec fn half_exponent(value: real) -> int {
    let h = exponent_of(value) / 2;
    if h < -1074 {
        -1074
    } else if h > 1023 {
        1023
    } else {
        h
    }
}

/// How a standard deviation is had: there is none, it is zero, it is a double, or it is the root
/// of a mantissa, times a power of two.
#[derive(Clone, Copy, Debug, PartialEq, Eq, Structural)]
pub enum Deviation {
    Nothing,
    Zero,
    Root { bits: u64 },
    Scaled { mantissa: u64, scale: u64 },
}

/// The bits of two to the power of `e`.
pub open spec fn scale_double(e: int) -> u64 {
    if e >= -1022 {
        ((e + 1023) * 0x10_0000_0000_0000) as u64
    } else {
        pow2((e + 1074) as nat) as u64
    }
}

/// The standard deviation of an exact state, up to the root of its mantissa.
pub open spec fn deviation_of(c: Central) -> Result<Deviation, Error> {
    if c.weight == 0real {
        Ok(Deviation::Nothing)
    } else if c.m2 == 0real {
        Ok(Deviation::Zero)
    } else {
        let q = c.m2 / c.weight;
        let h = half_exponent(q);
        match nearest(normalized(q, 2 * h)) {
            Some(mantissa) => if finite_bits(mantissa) {
                Ok(Deviation::Scaled { mantissa, scale: scale_double(h) })
            } else {
                Err(Error::NonfiniteDeviation)
            },
            None => Err(Error::NonfiniteDeviation),
        }
    }
}

/// The population variance of an exact state, as the bits of a double.
pub open spec fn variance_of(c: Central) -> Result<Option<u64>, Error> {
    if c.weight == 0real {
        Ok(None)
    } else {
        let q = c.m2 / c.weight;
        match nearest(q) {
            None => Err(Error::NonfiniteVariance),
            Some(bits) => if !finite_bits(bits) {
                Err(Error::NonfiniteVariance)
            } else if q != 0real && !above_zero(bits) {
                Err(Error::VarianceRange)
            } else {
                Ok(Some(bits))
            },
        }
    }
}

/// A double is above zero.
pub open spec fn above_zero(bits: u64) -> bool {
    0 < bits <= 0x7ff0_0000_0000_0000
}

fn is_above_zero(bits: u64) -> (r: bool)
    ensures
        r == above_zero(bits),
{
    bits > 0 && bits <= 0x7ff0_0000_0000_0000
}

/// The bits of two to the power of `e`.
fn power_bits(e: i32) -> (r: u64)
    requires
        -1074 <= e <= 1023,
    ensures
        r == scale_double(e as int),
{
    if e >= -1022 {
        (e + 1023) as u64 * 0x10_0000_0000_0000
    } else {
        let mut bits: u64 = 1;
        let mut k: i32 = -1074;
        proof {
            lemma_powers();
        }
        while k < e
            invariant
                -1074 <= k <= e < -1022,
                bits == pow2((k + 1074) as nat),
                bits < 0x10_0000_0000_0000,
            decreases e - k,
        {
            proof {
                lemma_twice((k + 1074) as nat);
                lemma_grows((k + 1075) as nat, 51);
                lemma_powers();
                lemma_twice(51);
            }
            bits = bits * 2;
            k += 1;
        }
        bits
    }
}

/// The scale of a deviation is a power of two.
pub proof fn a_scale_is_a_power_of_two(e: int)
    requires
        -1074 <= e <= 1023,
    ensures
        finite_bits(scale_double(e)),
        units(scale_double(e)) == pow2((e + 1074) as nat),
{
    let bits = scale_double(e);
    lemma_powers();
    if e >= -1022 {
        assert(field_of(bits) == e + 1023);
        assert(magnitude_of(bits) == 0x10_0000_0000_0000);
        assert(place_of(bits) == e + 1022);
        lemma_pow2_adds(52, (e + 1022) as nat);
    } else {
        lemma_grows((e + 1074) as nat, 51);
        lemma_twice(51);
        assert(field_of(bits) == 0);
        assert(magnitude_of(bits) == bits);
        assert(bits * 1 == bits);
    }
}

impl ExactMoments {
    pub closed spec fn view(&self) -> Central {
        Central { weight: amount(self.weight), mean: amount(self.mean), m2: amount(self.m2) }
    }

    /// A state that a merge can leave: nothing weighed, or within the budget.
    pub open spec fn wf(&self) -> bool {
        &&& self@.weight >= 0real
        &&& self@.weight != 0real ==> central_refusal(self@) is None
    }

    pub fn new() -> (r: Self)
        ensures
            r@ == empty_state(),
            r.wf(),
    {
        ExactMoments { weight: whole(0), mean: whole(0), m2: whole(0) }
    }

    /// A value with the product of two weights.
    pub fn of_product(value: u64, fraction: u64, weight: u64) -> (r: Self)
        requires
            finite_bits(value),
            finite_bits(fraction),
            finite_bits(weight),
        ensures
            r@ == single(value_of(value), value_of(fraction) * value_of(weight)),
    {
        ExactMoments {
            weight: times(&exact(fraction), &exact(weight)),
            mean: exact(value),
            m2: whole(0),
        }
    }

    /// A value with its weight.
    pub fn of(value: u64, weight: u64) -> (r: Self)
        requires
            finite_bits(value),
            finite_bits(weight),
        ensures
            r@ == single(value_of(value), value_of(weight)),
    {
        ExactMoments { weight: exact(weight), mean: exact(value), m2: whole(0) }
    }

    /// The same state, holding no spare capacity of larger intermediate products.
    fn compact(&self) -> (r: Self)
        ensures
            r@ == self@,
    {
        ExactMoments {
            weight: rebuilt(&self.weight),
            mean: rebuilt(&self.mean),
            m2: rebuilt(&self.m2),
        }
    }

    pub fn duplicate(&self) -> (r: Self)
        ensures
            r@ == self@,
    {
        ExactMoments {
            weight: duplicate(&self.weight),
            mean: duplicate(&self.mean),
            m2: duplicate(&self.m2),
        }
    }

    fn validate(&self) -> (r: Result<(), Error>)
        ensures
            r == match central_refusal(self@) {
                Some(e) => Err::<(), Error>(e),
                None => Ok(()),
            },
    {
        if !at_least(&self.weight, &whole(0)) || !at_least(&self.m2, &whole(0)) {
            return Err(Error::InvalidCentralState);
        }
        if !within(&self.weight) || !within(&self.mean) || !within(&self.m2) {
            return Err(Error::MomentBudget);
        }
        Ok(())
    }

    /// Take another state in. A state over the budget leaves this one as it was.
    pub fn merge(&mut self, rhs: &Self) -> (r: Result<(), Error>)
        requires
            old(self).wf(),
            rhs@.weight >= 0real,
        ensures
            final(self).wf(),
            match taken(old(self)@, rhs@) {
                Ok(c) => r is Ok && final(self)@ == c,
                Err(e) => r == Err::<(), Error>(e) && final(self)@ == old(self)@,
            },
    {
        if is_nothing(&rhs.weight) {
            return Ok(());
        }
        if is_nothing(&self.weight) {
            rhs.validate()?;
            *self = rhs.compact();
            return Ok(());
        }
        let total = plus(&self.weight, &rhs.weight);
        let delta = minus(&rhs.mean, &self.mean);
        let mean = plus(&self.mean, &over(&times(&delta, &rhs.weight), &total));
        let square = times(&times(&times(&delta, &delta), &self.weight), &rhs.weight);
        let m2 = plus(&plus(&self.m2, &rhs.m2), &over(&square, &total));
        let candidate = ExactMoments { weight: total, mean, m2 };
        assert(candidate@ == united(old(self)@, rhs@));
        candidate.validate()?;
        *self = candidate.compact();
        Ok(())
    }

    /// Normalize the exact squared quantity by an even power of two.
    /// Only the bounded mantissa is rounded before the root; neither a huge
    /// variance nor a subnormal variance must be materialized as a double.
    pub fn stddev(&self) -> (r: Result<Deviation, Error>)
        requires
            self.wf(),
        ensures
            r == deviation_of(self@),
    {
        if is_nothing(&self.weight) {
            return Ok(Deviation::Nothing);
        }
        if is_nothing(&self.m2) {
            return Ok(Deviation::Zero);
        }
        let q = over(&self.m2, &self.weight);
        let n: i64 = numer_bits(&q) as i64;
        let d: i64 = denom_bits(&q) as i64;
        let mut exponent: i64 = n - d;
        let below = if exponent >= 0 {
            !at_least(&q, &power(exponent as usize))
        } else {
            let unit = power((-exponent) as usize);
            proof {
                lemma_pow2_pos((-exponent) as nat);
            }
            !at_least(&q, &over(&whole(1), &unit))
        };
        if below {
            exponent -= 1;
        }
        assert(exponent == exponent_of(amount(q)));
        let mut half: i64 = halved(exponent);
        if half < -1074 {
            half = -1074;
        } else if half > 1023 {
            half = 1023;
        }
        let shift: i64 = 2 * half;
        let scaled = if shift >= 0 {
            let unit = power(shift as usize);
            proof {
                lemma_pow2_pos(shift as nat);
            }
            over(&q, &unit)
        } else {
            let unit = power((-shift) as usize);
            proof {
                lemma_pow2_pos((-shift) as nat);
            }
            times(&q, &unit)
        };
        match to_double(&scaled) {
            Some(mantissa) => if is_finite_bits(mantissa) {
                Ok(Deviation::Scaled { mantissa, scale: power_bits(half as i32) })
            } else {
                Err(Error::NonfiniteDeviation)
            },
            None => Err(Error::NonfiniteDeviation),
        }
    }

    pub fn variance(&self) -> (r: Result<Option<u64>, Error>)
        ensures
            r == variance_of(self@),
    {
        if is_nothing(&self.weight) {
            return Ok(None);
        }
        let q = over(&self.m2, &self.weight);
        match to_double(&q) {
            None => Err(Error::NonfiniteVariance),
            Some(bits) => if !is_finite_bits(bits) {
                Err(Error::NonfiniteVariance)
            } else if !is_nothing(&q) && !is_above_zero(bits) {
                Err(Error::VarianceRange)
            } else {
                Ok(Some(bits))
            },
        }
    }
}

/// Half of a number, rounded down.
fn halved(e: i64) -> (r: i64)
    requires
        -100000 <= e <= 100000,
    ensures
        r == e as int / 2,
{
    if e >= 0 {
        e / 2
    } else {
        -((1 - e) / 2)
    }
}

/// The floating state, as the bits of doubles: each of its sums is kept in two parts.
#[derive(Clone, Copy, Debug, PartialEq, Eq, Structural)]
pub struct FloatState {
    pub scale: u64,
    pub weight_high: u64,
    pub weight_low: u64,
    pub mean_high: u64,
    pub mean_low: u64,
    pub m2_high: u64,
    pub m2_low: u64,
}

/// Either zero.
pub open spec fn zero_bits(bits: u64) -> bool {
    bits == 0 || bits == 0x8000_0000_0000_0000
}

fn is_zero_bits(bits: u64) -> (r: bool)
    ensures
        r == zero_bits(bits),
{
    bits == 0 || bits == 0x8000_0000_0000_0000
}

impl FloatState {
    pub open spec fn finite(self) -> bool {
        &&& finite_bits(self.scale)
        &&& finite_bits(self.weight_high)
        &&& finite_bits(self.weight_low)
        &&& finite_bits(self.mean_high)
        &&& finite_bits(self.mean_low)
        &&& finite_bits(self.m2_high)
        &&& finite_bits(self.m2_low)
    }

    /// The central state that a floating state stands for.
    pub open spec fn central(self) -> Central {
        Central {
            weight: (value_of(self.weight_high) + value_of(self.weight_low)) * value_of(self.scale),
            mean: value_of(self.mean_high) + value_of(self.mean_low),
            m2: (value_of(self.m2_high) + value_of(self.m2_low)) * value_of(self.scale),
        }
    }
}

/// A floating state in which nothing is weighed.
pub open spec fn blank_float() -> FloatState {
    FloatState {
        scale: 0,
        weight_high: 0,
        weight_low: 0,
        mean_high: 0,
        mean_low: 0,
        m2_high: 0,
        m2_low: 0,
    }
}

/// The greatest power of two that is not above `n`.
pub open spec fn top_power(n: int) -> int
    decreases n,
{
    if n <= 1 {
        1
    } else {
        2 * top_power(n / 2)
    }
}

/// The power of two that a weight is scaled by: the greatest one not above it.
pub open spec fn scale_bits(weight: u64) -> u64 {
    if field_of(weight) != 0 {
        (field_of(weight) * 0x10_0000_0000_0000) as u64
    } else {
        top_power(weight as int) as u64
    }
}

/// A positive weight, divided by its scale: at least one and below two.
pub open spec fn unit_bits(weight: u64) -> u64 {
    if field_of(weight) != 0 {
        (0x3ff0_0000_0000_0000 + weight % 0x10_0000_0000_0000) as u64
    } else {
        let top = top_power(weight as int);
        (0x3ff0_0000_0000_0000 + (weight - top) * (0x10_0000_0000_0000int / top)) as u64
    }
}

proof fn lemma_top(n: int)
    requires
        1 <= n < 0x10_0000_0000_0000,
    ensures
        1 <= top_power(n) <= n < 2 * top_power(n),
        exists|k: nat| k < 52 && top_power(n) == #[trigger] pow2(k),
    decreases n,
{
    lemma_powers();
    if n > 1 {
        lemma_top(n / 2);
        let k = choose|k: nat| k < 52 && top_power(n / 2) == #[trigger] pow2(k);
        lemma_twice(k);
        if k >= 51 {
            lemma_grows(51, k);
            lemma_twice(51);
        }
        assert(top_power(n) == pow2(k + 1));
    } else {
        assert(top_power(n) == pow2(0));
    }
}

/// A weight is its scale times what is left of it.
pub proof fn scaling_keeps_the_weight(weight: u64)
    requires
        above_zero(weight),
        finite_bits(weight),
    ensures
        finite_bits(scale_bits(weight)),
        finite_bits(unit_bits(weight)),
        units(scale_bits(weight)) * units(unit_bits(weight)) == units(weight) * pow2(1074),
{
    lemma_powers();
    let s = scale_bits(weight);
    let u = unit_bits(weight);
    let f = field_of(weight);
    let rest = (weight % 0x10_0000_0000_0000) as int;
    lemma_pow2_adds(52, 1022);
    let p = pow2(1022) as int;
    let m52 = 0x10_0000_0000_0000int;
    if f != 0 {
        assert(field_of(s) == f && s % 0x10_0000_0000_0000 == 0);
        assert(magnitude_of(s) == m52 && place_of(s) == f - 1);
        assert(field_of(u) == 1023 && u % 0x10_0000_0000_0000 == rest);
        assert(magnitude_of(u) == rest + m52 && place_of(u) == 1022);
        assert(magnitude_of(weight) == rest + m52 && place_of(weight) == f - 1);
        let q = pow2((f - 1) as nat) as int;
        let g = rest + m52;
        assert((m52 * q) * (g * p) == (g * q) * (m52 * p)) by (nonlinear_arith);
    } else {
        lemma_top(weight as int);
        let k = choose|k: nat| k < 52 && top_power(weight as int) == #[trigger] pow2(k);
        let top = top_power(weight as int);
        lemma_pow2_adds(k, (52 - k) as nat);
        let c = pow2((52 - k) as nat) as int;
        lemma_pow2_pos((52 - k) as nat);
        assert(m52 / top == c) by {
            vstd::arithmetic::div_mod::lemma_div_multiples_vanish(c, top);
            assert(top * c == m52);
        }
        let over = weight - top;
        assert(0 <= over * c && over * c < m52) by (nonlinear_arith)
            requires
                0 <= over < top,
                top * c == m52,
                c >= 1,
        ;
        assert(field_of(u) == 1023 && u % 0x10_0000_0000_0000 == over * c);
        assert(magnitude_of(u) == over * c + m52 && place_of(u) == 1022);
        assert(field_of(s) == 0 && magnitude_of(s) == top && place_of(s) == 0);
        assert(magnitude_of(weight) == weight && place_of(weight) == 0);
        let w = weight as int;
        assert((top * 1) * ((over * c + m52) * p) == (w * 1) * (m52 * p)) by (nonlinear_arith)
            requires
                over == w - top,
                top * c == m52,
        {
            assert(over * c + m52 == w * c);
            assert(top * ((w * c) * p) == w * ((top * c) * p));
        }
    }
}

/// The greatest power of two that is not above a weight, and the weight over it.
pub fn power_scale(weight: u64) -> (r: (u64, u64))
    requires
        above_zero(weight),
        finite_bits(weight),
    ensures
        r.0 == scale_bits(weight),
        r.1 == unit_bits(weight),
{
    let field: u64 = weight / 0x10_0000_0000_0000 % 2048;
    let rest: u64 = weight % 0x10_0000_0000_0000;
    if field != 0 {
        return (field * 0x10_0000_0000_0000, 0x3ff0_0000_0000_0000 + rest);
    }
    proof {
        lemma_top(weight as int);
    }
    let top: u64 = top_of(weight);
    let c: u64 = 0x10_0000_0000_0000 / top;
    proof {
        let m52 = 0x10_0000_0000_0000int;
        let over = weight - top;
        vstd::arithmetic::div_mod::lemma_fundamental_div_mod(m52, top as int);
        assert(0 <= over * c <= m52) by (nonlinear_arith)
            requires
                0 <= over < top,
                top * c <= m52,
                c >= 0,
        ;
    }
    (top, 0x3ff0_0000_0000_0000 + (weight - top) * c)
}

fn top_of(n: u64) -> (r: u64)
    requires
        1 <= n < 0x10_0000_0000_0000,
    ensures
        r == top_power(n as int),
    decreases n,
{
    proof {
        lemma_top(n as int);
    }
    if n <= 1 {
        1
    } else {
        2 * top_of(n / 2)
    }
}

/// A floating state, and the exact one that has taken over from it, if any.
pub ghost struct MomentsView {
    pub float: FloatState,
    pub exact: Option<Central>,
}

/// Central moments that fall back to exact arithmetic.
pub struct Moments {
    float: FloatState,
    exact: Option<ExactMoments>,
}

/// The exact state that stands for all that was weighed.
pub open spec fn exact_of(v: MomentsView) -> Result<Central, Error> {
    match v.exact {
        Some(c) => Ok(c),
        None => if zero_bits(v.float.scale) {
            Ok(empty_state())
        } else {
            match central_refusal(v.float.central()) {
                Some(e) => Err(e),
                None => Ok(v.float.central()),
            }
        },
    }
}

/// Taking in an exact state, which makes the whole exact.
pub open spec fn exactly_taken(v: MomentsView, c: Central) -> Result<MomentsView, Error> {
    match exact_of(v) {
        Err(e) => Err(e),
        Ok(state) => match taken(state, c) {
            Err(e) => Err(e),
            Ok(state) => Ok(MomentsView { float: v.float, exact: Some(state) }),
        },
    }
}

/// Taking in other moments. `floated` is what the floating merge gave, or none where one of its
/// guards failed.
pub open spec fn moments_taken(a: MomentsView, b: MomentsView, floated: Option<FloatState>) -> Result<
    MomentsView,
    Error,
> {
    let exactly = match exact_of(b) {
        Err(e) => Err(e),
        Ok(c) => exactly_taken(a, c),
    };
    if a.exact is Some || b.exact is Some {
        exactly
    } else if zero_bits(b.float.scale) {
        Ok(a)
    } else if zero_bits(a.float.scale) {
        Ok(b)
    } else {
        match floated {
            Some(float) => Ok(MomentsView { float, exact: None }),
            None => exactly,
        }
    }
}

/// The floating state of one value with its weight.
pub open spec fn sample_float(value: u64, weight: u64) -> FloatState {
    FloatState {
        scale: scale_bits(weight),
        weight_high: unit_bits(weight),
        mean_high: value,
        ..blank_float()
    }
}

/// Taking in a value with its weight.
pub open spec fn sampled(v: MomentsView, value: u64, weight: u64, floated: Option<FloatState>) -> Result<
    MomentsView,
    Error,
> {
    if !finite_bits(value) || !finite_bits(weight) || weight > 0x8000_0000_0000_0000 {
        Err(Error::InvalidMomentInput)
    } else if zero_bits(weight) {
        Ok(v)
    } else if v.exact is Some {
        exactly_taken(v, single(value_of(value), value_of(weight)))
    } else {
        moments_taken(v, MomentsView { float: sample_float(value, weight), exact: None }, floated)
    }
}

/// A double below the normal range.
pub open spec fn subnormal(bits: u64) -> bool {
    field_of(bits) == 0 && !zero_bits(bits)
}

/// The product of two weights as a double, `effective`, is not their product.
pub open spec fn product_lost(fraction: u64, weight: u64, effective: u64) -> bool {
    ||| zero_bits(effective)
    ||| !finite_bits(effective)
    ||| subnormal(effective) && value_of(fraction) * value_of(weight) != value_of(effective)
}

/// Taking in a value with the product of two weights.
pub open spec fn product_sampled(
    v: MomentsView,
    value: u64,
    fraction: u64,
    weight: u64,
    effective: u64,
    floated: Option<FloatState>,
) -> Result<MomentsView, Error> {
    if zero_bits(weight) {
        Ok(v)
    } else if v.exact is Some || product_lost(fraction, weight, effective) {
        exactly_taken(v, single(value_of(value), value_of(fraction) * value_of(weight)))
    } else {
        sampled(v, value, effective, floated)
    }
}

/// What floating arithmetic gives at the end of a floating state: its central moment, that over
/// the weight, and the root of that.
#[derive(Clone, Copy, Debug, PartialEq, Eq, Structural)]
pub struct FloatEnd {
    pub m2: u64,
    pub variance: u64,
    pub root: u64,
}

/// The population variance of moments.
pub open spec fn moments_variance(v: MomentsView, end: FloatEnd) -> Result<Option<u64>, Error> {
    match v.exact {
        Some(c) => variance_of(c),
        None => if zero_bits(v.float.scale) {
            Ok(None)
        } else if !finite_bits(end.variance) || end.variance > 0x8000_0000_0000_0000 {
            Err(Error::NonfiniteVariance)
        } else if !zero_bits(end.m2) && !above_zero(end.variance) {
            Err(Error::VarianceRange)
        } else {
            Ok(Some(end.variance))
        },
    }
}

/// A double in the normal range.
pub open spec fn normal(bits: u64) -> bool {
    1 <= field_of(bits) <= 2046
}

/// The standard deviation of moments, up to the root of an exact mantissa.
pub open spec fn moments_deviation(v: MomentsView, end: FloatEnd) -> Result<Deviation, Error> {
    match v.exact {
        Some(c) => deviation_of(c),
        None => if zero_bits(v.float.scale) {
            Ok(Deviation::Nothing)
        } else if zero_bits(end.m2) {
            Ok(Deviation::Zero)
        } else if normal(end.variance) {
            Ok(Deviation::Root { bits: end.root })
        } else {
            match exact_of(v) {
                Err(e) => Err(e),
                Ok(c) => deviation_of(c),
            }
        },
    }
}

pub proof fn lemma_value_sign(bits: u64)
    requires
        finite_bits(bits),
        bits < 0x8000_0000_0000_0000,
    ensures
        value_of(bits) >= 0real,
{
    lemma_pow2_pos(1074);
    lemma_quotient_sign(units(bits) as real, pow2(1074) as real);
}

impl Moments {
    pub closed spec fn view(&self) -> MomentsView {
        MomentsView {
            float: self.float,
            exact: match self.exact {
                Some(e) => Some(e@),
                None => None,
            },
        }
    }

    pub closed spec fn wf(&self) -> bool {
        &&& self.float.finite()
        &&& self.exact matches Some(e) ==> e.wf()
    }

    pub fn new() -> (r: Self)
        ensures
            r.wf(),
            r@ == (MomentsView { float: blank_float(), exact: None }),
    {
        Moments {
            float: FloatState {
                scale: 0,
                weight_high: 0,
                weight_low: 0,
                mean_high: 0,
                mean_low: 0,
                m2_high: 0,
                m2_low: 0,
            },
            exact: None,
        }
    }

    /// The floating state, for the arithmetic on it.
    pub fn float(&self) -> (r: FloatState)
        ensures
            r == self@.float,
    {
        self.float
    }

    /// Exact arithmetic has taken over.
    pub fn is_exact(&self) -> (r: bool)
        ensures
            r == (self@.exact is Some),
    {
        match &self.exact {
            Some(_) => true,
            None => false,
        }
    }

    fn as_exact(&self) -> (r: Result<ExactMoments, Error>)
        requires
            self.wf(),
        ensures
            match exact_of(self@) {
                Ok(c) => r is Ok && r->Ok_0@ == c && r->Ok_0.wf(),
                Err(e) => r == Err::<ExactMoments, Error>(e),
            },
    {
        match &self.exact {
            Some(state) => Ok(state.duplicate()),
            None => {
                if is_zero_bits(self.float.scale) {
                    return Ok(ExactMoments::new());
                }
                let f = self.float;
                let scale = exact(f.scale);
                let state = ExactMoments {
                    weight: times(&plus(&exact(f.weight_high), &exact(f.weight_low)), &scale),
                    mean: plus(&exact(f.mean_high), &exact(f.mean_low)),
                    m2: times(&plus(&exact(f.m2_high), &exact(f.m2_low)), &scale),
                };
                assert(state@ == f.central());
                state.validate()?;
                Ok(state)
            },
        }
    }

    fn merge_exact(&mut self, rhs: &ExactMoments) -> (r: Result<(), Error>)
        requires
            old(self).wf(),
            rhs@.weight >= 0real,
        ensures
            final(self).wf(),
            match exactly_taken(old(self)@, rhs@) {
                Ok(v) => r is Ok && final(self)@ == v,
                Err(e) => r == Err::<(), Error>(e) && final(self)@ == old(self)@,
            },
    {
        let mut state = self.as_exact()?;
        state.merge(rhs)?;
        self.exact = Some(state);
        Ok(())
    }

    /// Take other moments in. The floating merge commits only after all of its guards pass, so
    /// that where one fails the prior state is still there to be made exact.
    pub fn merge(&mut self, rhs: &Self, floated: Option<FloatState>) -> (r: Result<(), Error>)
        requires
            old(self).wf(),
            rhs.wf(),
            floated matches Some(f) ==> f.finite(),
        ensures
            final(self).wf(),
            match moments_taken(old(self)@, rhs@, floated) {
                Ok(v) => r is Ok && final(self)@ == v,
                Err(e) => r == Err::<(), Error>(e) && final(self)@ == old(self)@,
            },
    {
        if !self.is_exact() && !rhs.is_exact() {
            if is_zero_bits(rhs.float.scale) {
                return Ok(());
            }
            if is_zero_bits(self.float.scale) {
                self.float = rhs.float;
                return Ok(());
            }
            if let Some(float) = floated {
                self.float = float;
                return Ok(());
            }
        }
        let state = rhs.as_exact()?;
        self.merge_exact(&state)
    }

    /// The moments of one value with its weight.
    fn of_sample(value: u64, weight: u64) -> (r: Self)
        requires
            finite_bits(value),
            finite_bits(weight),
            above_zero(weight),
        ensures
            r.wf(),
            r@ == (MomentsView { float: sample_float(value, weight), exact: None }),
    {
        let (scale, unit) = power_scale(weight);
        proof {
            scaling_keeps_the_weight(weight);
        }
        Moments {
            float: FloatState {
                scale,
                weight_high: unit,
                weight_low: 0,
                mean_high: value,
                mean_low: 0,
                m2_high: 0,
                m2_low: 0,
            },
            exact: None,
        }
    }

    /// Take a value with its weight in.
    pub fn sample(&mut self, value: u64, weight: u64, floated: Option<FloatState>) -> (r: Result<
        (),
        Error,
    >)
        requires
            old(self).wf(),
            floated matches Some(f) ==> f.finite(),
        ensures
            final(self).wf(),
            match sampled(old(self)@, value, weight, floated) {
                Ok(v) => r is Ok && final(self)@ == v,
                Err(e) => r == Err::<(), Error>(e) && final(self)@ == old(self)@,
            },
    {
        if !is_finite_bits(value) || !is_finite_bits(weight) || weight > 0x8000_0000_0000_0000 {
            return Err(Error::InvalidMomentInput);
        }
        if is_zero_bits(weight) {
            return Ok(());
        }
        proof {
            lemma_value_sign(weight);
        }
        if self.is_exact() {
            return self.merge_exact(&ExactMoments::of(value, weight));
        }
        let state = Self::of_sample(value, weight);
        self.merge(&state, floated)
    }

    /// Take a value with the product of two weights in. `effective` is that product as a double.
    pub fn sample_product(
        &mut self,
        value: u64,
        fraction: u64,
        weight: u64,
        effective: u64,
        floated: Option<FloatState>,
    ) -> (r: Result<(), Error>)
        requires
            old(self).wf(),
            finite_bits(value),
            finite_bits(fraction) && fraction < 0x8000_0000_0000_0000,
            finite_bits(weight) && weight <= 0x8000_0000_0000_0000,
            floated matches Some(f) ==> f.finite(),
        ensures
            final(self).wf(),
            match product_sampled(old(self)@, value, fraction, weight, effective, floated) {
                Ok(v) => r is Ok && final(self)@ == v,
                Err(e) => r == Err::<(), Error>(e) && final(self)@ == old(self)@,
            },
    {
        if is_zero_bits(weight) {
            return Ok(());
        }
        let mut lost = self.is_exact() || is_zero_bits(effective) || !is_finite_bits(effective);
        if !lost && effective / 0x10_0000_0000_0000 % 2048 == 0 {
            let product = times(&exact(fraction), &exact(weight));
            lost = !is_nothing(&minus(&product, &exact(effective)));
        }
        if lost {
            proof {
                lemma_value_sign(fraction);
                lemma_value_sign(weight);
                lemma_product_sign(value_of(fraction), value_of(weight));
            }
            return self.merge_exact(&ExactMoments::of_product(value, fraction, weight));
        }
        self.sample(value, effective, floated)
    }

    /// The population variance.
    pub fn variance(&self, end: FloatEnd) -> (r: Result<Option<u64>, Error>)
        requires
            self.wf(),
        ensures
            r == moments_variance(self@, end),
            self@.exact is None ==> (r matches Ok(Some(v)) ==> v == end.variance),
    {
        match &self.exact {
            Some(state) => state.variance(),
            None => {
                if is_zero_bits(self.float.scale) {
                    Ok(None)
                } else if !is_finite_bits(end.variance) || end.variance > 0x8000_0000_0000_0000 {
                    Err(Error::NonfiniteVariance)
                } else if !is_zero_bits(end.m2) && !is_above_zero(end.variance) {
                    Err(Error::VarianceRange)
                } else {
                    Ok(Some(end.variance))
                }
            },
        }
    }

    /// The population standard deviation, up to the root of an exact mantissa.
    pub fn stddev(&self, end: FloatEnd) -> (r: Result<Deviation, Error>)
        requires
            self.wf(),
        ensures
            r == moments_deviation(self@, end),
    {
        match &self.exact {
            Some(state) => state.stddev(),
            None => {
                if is_zero_bits(self.float.scale) {
                    return Ok(Deviation::Nothing);
                }
                if is_zero_bits(end.m2) {
                    return Ok(Deviation::Zero);
                }
                let field: u64 = end.variance / 0x10_0000_0000_0000 % 2048;
                if field >= 1 && field <= 2046 {
                    return Ok(Deviation::Root { bits: end.root });
                }
                let state = self.as_exact()?;
                state.stddev()
            },
        }
    }
}

/// What a standard deviation comes to. `product` is the root of the mantissa times the scale.
pub open spec fn deviation_value(d: Deviation, product: u64) -> Result<Option<u64>, Error> {
    match d {
        Deviation::Nothing => Ok(None),
        Deviation::Zero => Ok(Some(0)),
        Deviation::Root { bits } => Ok(Some(bits)),
        Deviation::Scaled { .. } => if !finite_bits(product) {
            Err(Error::NonfiniteDeviation)
        } else if !above_zero(product) {
            Err(Error::DeviationRange)
        } else {
            Ok(Some(product))
        },
    }
}

impl Deviation {
    /// The double that a standard deviation comes to.
    pub fn finish(self, product: u64) -> (r: Result<Option<u64>, Error>)
        ensures
            r == deviation_value(self, product),
    {
        match self {
            Deviation::Nothing => Ok(None),
            Deviation::Zero => Ok(Some(0)),
            Deviation::Root { bits } => Ok(Some(bits)),
            Deviation::Scaled { .. } => if !is_finite_bits(product) {
                Err(Error::NonfiniteDeviation)
            } else if !is_above_zero(product) {
                Err(Error::DeviationRange)
            } else {
                Ok(Some(product))
            },
        }
    }
}

} // verus!
