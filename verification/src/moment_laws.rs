//! What variances and deviations say of the values that were weighed.
use vstd::arithmetic::power2::{lemma_pow2_adds, lemma_pow2_pos, pow2};
use vstd::prelude::*;

use crate::algebra::{lemma_nothing, lemma_quotient, lemma_undone};
use crate::dyadic::{magnitude_of, place_of, units};
use crate::error::Error;
use crate::moments::{
    a_scale_is_a_power_of_two, above_zero, blank_float, deviation_of, deviation_value, empty_state,
    exact_of, half_exponent, moments_deviation, moments_taken, moments_variance, normal, normalized,
    product_lost, product_sampled, sample_float, sampled, scale_bits, scale_double,
    scaling_keeps_the_weight, single, unit_bits, united, uniting_adds_moments, variance_of,
    zero_bits, Central, Deviation, FloatEnd, FloatState, MomentsView,
};
use crate::rational::{nearest, value_of};
use crate::skv_header::finite_bits;

verus! {

/// The variance of a floating state is the quotient that was computed for it, and never its root;
/// its deviation is that root.
pub proof fn a_floating_variance_is_not_its_root(v: MomentsView, end: FloatEnd, product: u64)
    requires
        v.exact is None,
        !zero_bits(v.float.scale),
    ensures
        moments_variance(v, end) matches Ok(found) ==> found == Some(end.variance),
        moments_variance(v, end) is Ok <==> finite_bits(end.variance) && end.variance
            <= 0x8000_0000_0000_0000 && (zero_bits(end.m2) || above_zero(end.variance)),
        !zero_bits(end.m2) && normal(end.variance) ==> (moments_deviation(v, end) matches Ok(d)
            && deviation_value(d, product) == Ok::<Option<u64>, Error>(Some(end.root))),
        zero_bits(end.m2) ==> (moments_deviation(v, end) matches Ok(d) && deviation_value(
            d,
            product,
        ) == Ok::<Option<u64>, Error>(Some(0))),
{
}

/// Where nothing was weighed there is neither a variance nor a deviation.
pub proof fn nothing_has_no_variance(end: FloatEnd, product: u64)
    ensures
        ({
            let v = MomentsView { float: blank_float(), exact: None };
            &&& moments_variance(v, end) == Ok::<Option<u64>, Error>(None)
            &&& moments_deviation(v, end) matches Ok(d) && deviation_value(d, product) == Ok::<
                Option<u64>,
                Error,
            >(None)
        }),
        variance_of(empty_state()) == Ok::<Option<u64>, Error>(None),
        deviation_of(empty_state()) == Ok::<Deviation, Error>(Deviation::Nothing),
{
}

/// Where the caller's root is the root of the caller's quotient, the variance of a floating state
/// is the square of its deviation.
pub proof fn a_variance_is_the_square_of_its_deviation(
    v: MomentsView,
    end: FloatEnd,
    product: u64,
    variance: u64,
    deviation: u64,
)
    requires
        v.exact is None,
        moments_variance(v, end) == Ok::<Option<u64>, Error>(Some(variance)),
        zero_bits(end.m2) ==> zero_bits(end.variance),
        !zero_bits(end.m2) ==> normal(end.variance),
        value_of(end.root) * value_of(end.root) == value_of(end.variance),
        moments_deviation(v, end) matches Ok(d) && deviation_value(d, product) == Ok::<
            Option<u64>,
            Error,
        >(Some(deviation)),
    ensures
        value_of(deviation) * value_of(deviation) == value_of(variance),
{
    if zero_bits(end.m2) {
        lemma_zero_value(0);
        lemma_zero_value(end.variance);
        assert(0real * 0real == 0real) by (nonlinear_arith);
    }
}

pub proof fn lemma_zero_value(bits: u64)
    requires
        zero_bits(bits),
    ensures
        value_of(bits) == 0real,
{
    assert(magnitude_of(bits) == 0);
    let p = pow2(place_of(bits)) as int;
    assert(0 * p == 0) by (nonlinear_arith);
    lemma_pow2_pos(1074);
    assert(0real / (pow2(1074) as real) == 0real) by (nonlinear_arith)
        requires
            pow2(1074) > 0,
    ;
}

/// Where the caller's quotient is exact, the variance of a floating state is the central second
/// moment that the state stands for over its weight.
pub proof fn an_exact_quotient_is_the_variance(v: MomentsView, end: FloatEnd, variance: u64)
    requires
        v.exact is None,
        moments_variance(v, end) == Ok::<Option<u64>, Error>(Some(variance)),
        value_of(end.variance) * state_of(v).weight == state_of(v).m2,
    ensures
        value_of(variance) * state_of(v).weight == state_of(v).m2,
{
}

/// The variance of an exact state is the double of its second central moment over its weight.
pub proof fn an_exact_variance_is_the_mean_square(c: Central, variance: u64) -> (q: real)
    requires
        c.weight != 0real,
        variance_of(c) == Ok::<Option<u64>, Error>(Some(variance)),
    ensures
        q * c.weight == c.m2,
        nearest(q) == Some(variance),
{
    lemma_quotient(c.m2, c.weight);
    c.m2 / c.weight
}

/// The deviation of an exact state is the root of a mantissa times a power of two: that mantissa
/// times the square of the power is the second central moment over the weight.
pub proof fn an_exact_deviation_is_the_root_of_the_mean_square(c: Central, d: Deviation) -> (x:
    real)
    requires
        c.weight != 0real,
        deviation_of(c) == Ok::<Deviation, Error>(d),
    ensures
        d is Zero <==> c.m2 == 0real,
        d is Zero || d is Scaled,
        d matches Deviation::Scaled { mantissa, scale } ==> {
            &&& nearest(x) == Some(mantissa)
            &&& finite_bits(mantissa)
            &&& finite_bits(scale)
            &&& (x * (value_of(scale) * value_of(scale))) * c.weight == c.m2
        },
{
    let q = c.m2 / c.weight;
    let h = half_exponent(q);
    let x = normalized(q, 2 * h);
    if c.m2 != 0real {
        lemma_quotient(c.m2, c.weight);
        a_scale_is_a_power_of_two(h);
        lemma_rescaled(q, h);
    }
    x
}

proof fn lemma_rescaled(q: real, h: int)
    requires
        -1074 <= h <= 1023,
    ensures
        normalized(q, 2 * h) * (value_of(scale_double(h)) * value_of(scale_double(h))) == q,
{
    a_scale_is_a_power_of_two(h);
    lemma_pow2_pos(1074);
    let unit = pow2(1074) as real;
    let s = value_of(scale_double(h));
    if h >= 0 {
        lemma_pow2_adds(h as nat, 1074);
        lemma_pow2_adds(h as nat, h as nat);
        lemma_pow2_pos(h as nat);
        let p = pow2(h as nat) as real;
        lemma_as_real(pow2(h as nat) as int, pow2(1074) as int);
        lemma_as_real(pow2(h as nat) as int, pow2(h as nat) as int);
        lemma_undone(p, unit);
        assert(s == p);
        assert(p * p != 0real) by (nonlinear_arith)
            requires
                p > 0real,
        ;
        assert((h + h) as nat == (2 * h) as nat);
        lemma_quotient(q, p * p);
    } else {
        let k = (-h) as nat;
        lemma_pow2_adds((h + 1074) as nat, k);
        lemma_pow2_adds(k, k);
        lemma_pow2_pos(k);
        lemma_pow2_pos((h + 1074) as nat);
        let p = pow2(k) as real;
        let u = pow2((h + 1074) as nat) as real;
        lemma_as_real(pow2((h + 1074) as nat) as int, pow2(k) as int);
        lemma_as_real(pow2(k) as int, pow2(k) as int);
        assert(unit == u * p);
        lemma_quotient(u, unit);
        assert(s * unit == u);
        assert(s * p == 1real) by (nonlinear_arith)
            requires
                s * (u * p) == u,
                u > 0real,
        ;
        assert((k + k) as nat == (-(2 * h)) as nat);
        assert((q * (p * p)) * (s * s) == q) by (nonlinear_arith)
            requires
                s * p == 1real,
        {
            assert((q * (p * p)) * (s * s) == q * ((s * p) * (s * p)));
        }
    }
}

proof fn lemma_as_real(a: int, b: int)
    ensures
        (a * b) as real == (a as real) * (b as real),
{
    assert((a * b) as real == (a as real) * (b as real)) by (nonlinear_arith);
}

/// The central state that moments stand for.
pub open spec fn state_of(v: MomentsView) -> Central {
    match v.exact {
        Some(c) => c,
        None => if zero_bits(v.float.scale) {
            empty_state()
        } else {
            v.float.central()
        },
    }
}

/// A weight that is not negative, and no moment where there is no weight.
pub open spec fn sound(c: Central) -> bool {
    c.weight >= 0real && (c.weight == 0real ==> c.m2 == 0real)
}

/// The outcome of a floating merge stands for both states together.
pub open spec fn faithful(floated: Option<FloatState>, a: Central, b: Central) -> bool {
    floated matches Some(f) ==> !zero_bits(f.scale) && f.central() == united(a, b)
}

/// A state weighs what two states weigh together: its weight, its weighted sum and its weighted
/// sum of squares are those of both.
pub open spec fn adds_up(c: Central, a: Central, b: Central) -> bool {
    &&& c.weight == a.weight + b.weight
    &&& c.weight * c.mean == a.weight * a.mean + b.weight * b.mean
    &&& c.m2 + c.weight * (c.mean * c.mean) == (a.m2 + a.weight * (a.mean * a.mean)) + (b.m2
        + b.weight * (b.mean * b.mean))
}

proof fn lemma_united(a: Central, b: Central)
    requires
        sound(a),
        sound(b),
    ensures
        adds_up(united(a, b), a, b),
        sound(united(a, b)),
{
    uniting_adds_moments(a, b);
}

proof fn lemma_adds_nothing(a: Central)
    ensures
        adds_up(a, a, empty_state()),
        adds_up(a, empty_state(), a),
{
    lemma_nothing(0real);
    lemma_nothing(0real * 0real);
}

/// Taking in other moments gives the moments of both together, exactly or in floating state,
/// wherever the floating merge stands for both.
pub proof fn merging_adds_moments(
    a: MomentsView,
    b: MomentsView,
    floated: Option<FloatState>,
    v: MomentsView,
)
    requires
        sound(state_of(a)),
        sound(state_of(b)),
        faithful(floated, state_of(a), state_of(b)),
        moments_taken(a, b, floated) == Ok::<MomentsView, Error>(v),
    ensures
        adds_up(state_of(v), state_of(a), state_of(b)),
        sound(state_of(v)),
{
    lemma_united(state_of(a), state_of(b));
    lemma_adds_nothing(state_of(a));
    lemma_adds_nothing(state_of(b));
}

pub proof fn lemma_positive_value(bits: u64)
    requires
        finite_bits(bits),
        above_zero(bits),
    ensures
        value_of(bits) > 0real,
{
    assert(magnitude_of(bits) > 0);
    lemma_pow2_pos(place_of(bits));
    let m = magnitude_of(bits) as int;
    let p = pow2(place_of(bits)) as int;
    assert(m * p > 0) by (nonlinear_arith)
        requires
            m > 0,
            p > 0,
    ;
    lemma_pow2_pos(1074);
    let u = units(bits) as real;
    let w = pow2(1074) as real;
    assert(u / w > 0real) by (nonlinear_arith)
        requires
            u > 0real,
            w > 0real,
    ;
}

/// The floating state of one value stands for that value with its whole weight.
pub proof fn a_sample_stands_for_its_value(value: u64, weight: u64)
    requires
        finite_bits(weight),
        above_zero(weight),
    ensures
        !zero_bits(sample_float(value, weight).scale),
        sample_float(value, weight).central() == single(value_of(value), value_of(weight)),
{
    scaling_keeps_the_weight(weight);
    lemma_pow2_pos(1074);
    lemma_zero_value(0);
    lemma_positive_value(weight);
    let p = pow2(1074) as real;
    let u = units(unit_bits(weight)) as real;
    let s = units(scale_bits(weight)) as real;
    let w = units(weight) as real;
    lemma_as_real(units(scale_bits(weight)), units(unit_bits(weight)));
    lemma_as_real(units(weight), pow2(1074) as int);
    assert(s * u == w * p);
    lemma_quotient(u, p);
    lemma_quotient(s, p);
    lemma_quotient(w, p);
    let a = u / p;
    let b = s / p;
    let c = w / p;
    assert(a * b == c) by (nonlinear_arith)
        requires
            a * p == u,
            b * p == s,
            c * p == w,
            s * u == w * p,
            p > 0real,
    {
        assert((a * b) * (p * p) == (a * p) * (b * p));
        assert((a * p) * (b * p) == (c * p) * p);
        assert((c * p) * p == c * (p * p));
        assert(p * p > 0real);
    }
    if zero_bits(scale_bits(weight)) {
        lemma_zero_value(scale_bits(weight));
        assert(a * 0real == 0real) by (nonlinear_arith);
    }
    assert(0real * b == 0real) by (nonlinear_arith);
}

/// Taking in a value adds it with its weight: to the weight, to the weighted sum and to the
/// weighted sum of squares.
pub proof fn sampling_adds_the_value(
    v: MomentsView,
    value: u64,
    weight: u64,
    floated: Option<FloatState>,
    next: MomentsView,
)
    requires
        sound(state_of(v)),
        faithful(floated, state_of(v), single(value_of(value), value_of(weight))),
        sampled(v, value, weight, floated) == Ok::<MomentsView, Error>(next),
    ensures
        adds_up(state_of(next), state_of(v), single(value_of(value), value_of(weight))),
        sound(state_of(next)),
{
    let b = single(value_of(value), value_of(weight));
    if zero_bits(weight) {
        lemma_zero_value(weight);
        lemma_nothing(value_of(value));
        lemma_nothing(value_of(value) * value_of(value));
    } else {
        lemma_positive_value(weight);
        lemma_united(state_of(v), b);
        a_sample_stands_for_its_value(value, weight);
        if v.exact is None {
            merging_adds_moments(
                v,
                MomentsView { float: sample_float(value, weight), exact: None },
                floated,
                next,
            );
        }
    }
}

/// Taking in a value with two weights adds it with their product, wherever the product as a double
/// is that product.
pub proof fn sampling_a_product_adds_the_value(
    v: MomentsView,
    value: u64,
    fraction: u64,
    weight: u64,
    effective: u64,
    floated: Option<FloatState>,
    next: MomentsView,
)
    requires
        sound(state_of(v)),
        finite_bits(fraction) && above_zero(fraction),
        finite_bits(weight) && weight <= 0x8000_0000_0000_0000,
        finite_bits(effective) && !zero_bits(effective) ==> value_of(effective) == value_of(
            fraction,
        ) * value_of(weight),
        faithful(
            floated,
            state_of(v),
            single(value_of(value), value_of(fraction) * value_of(weight)),
        ),
        product_sampled(v, value, fraction, weight, effective, floated) == Ok::<
            MomentsView,
            Error,
        >(next),
    ensures
        adds_up(
            state_of(next),
            state_of(v),
            single(value_of(value), value_of(fraction) * value_of(weight)),
        ),
        sound(state_of(next)),
{
    let w = value_of(fraction) * value_of(weight);
    let b = single(value_of(value), w);
    lemma_positive_value(fraction);
    if zero_bits(weight) {
        lemma_zero_value(weight);
        let f = value_of(fraction);
        assert(f * 0real == 0real) by (nonlinear_arith);
        lemma_nothing(value_of(value));
        lemma_nothing(value_of(value) * value_of(value));
    } else {
        lemma_positive_value(weight);
        let f = value_of(fraction);
        let g = value_of(weight);
        assert(f * g > 0real) by (nonlinear_arith)
            requires
                f > 0real,
                g > 0real,
        ;
        if v.exact is Some || product_lost(fraction, weight, effective) {
            lemma_united(state_of(v), b);
        } else {
            sampling_adds_the_value(v, value, effective, floated, next);
        }
    }
}

/// A value with the weight that it is taken in with.
pub ghost struct Weighed {
    pub value: real,
    pub weight: real,
}

/// What the first `n` values weigh.
pub open spec fn weight_sum(s: Seq<Weighed>, n: int) -> real
    decreases n,
{
    if n <= 0 {
        0real
    } else {
        weight_sum(s, n - 1) + s[n - 1].weight
    }
}

/// The weighted sum of the first `n` values.
pub open spec fn value_sum(s: Seq<Weighed>, n: int) -> real
    decreases n,
{
    if n <= 0 {
        0real
    } else {
        value_sum(s, n - 1) + s[n - 1].weight * s[n - 1].value
    }
}

/// The weighted sum of the squares of the deviations of the first `n` values from `center`.
pub open spec fn square_sum(s: Seq<Weighed>, center: real, n: int) -> real
    decreases n,
{
    if n <= 0 {
        0real
    } else {
        square_sum(s, center, n - 1) + s[n - 1].weight * ((s[n - 1].value - center) * (s[n
            - 1].value - center))
    }
}

/// A state is that of the first `n` values: their weight, their weighted sum and their weighted sum
/// of squares.
pub open spec fn stands_for(c: Central, s: Seq<Weighed>, n: int) -> bool {
    &&& c.weight == weight_sum(s, n)
    &&& c.weight * c.mean == value_sum(s, n)
    &&& c.m2 + c.weight * (c.mean * c.mean) == square_sum(s, 0real, n)
}

/// Nothing stands for no values.
pub proof fn an_empty_state_stands_for_nothing(s: Seq<Weighed>)
    ensures
        stands_for(empty_state(), s, 0),
        sound(empty_state()),
{
    lemma_nothing(0real);
    lemma_nothing(0real * 0real);
}

/// A state that one more value was added to stands for one more value.
pub proof fn one_more_value(a: Central, c: Central, s: Seq<Weighed>, n: int)
    requires
        0 <= n < s.len(),
        stands_for(a, s, n),
        adds_up(c, a, single(s[n].value, s[n].weight)),
    ensures
        stands_for(c, s, n + 1),
{
    assert(s[n].value - 0real == s[n].value);
}

/// Sums of squares about two centers.
proof fn lemma_moved_center(s: Seq<Weighed>, center: real, n: int)
    requires
        0 <= n <= s.len(),
    ensures
        square_sum(s, center, n) == square_sum(s, 0real, n) - 2real * center * value_sum(s, n)
            + (center * center) * weight_sum(s, n),
    decreases n,
{
    if n > 0 {
        lemma_moved_center(s, center, n - 1);
        let w = s[n - 1].weight;
        let x = s[n - 1].value;
        let q = square_sum(s, 0real, n - 1);
        let a = value_sum(s, n - 1);
        let b = weight_sum(s, n - 1);
        let c = center;
        assert(w * ((x - c) * (x - c)) == w * (x * x) - 2real * c * (w * x) + (c * c) * w) by (
            nonlinear_arith);
        assert(2real * c * (a + w * x) == 2real * c * a + 2real * c * (w * x)) by (nonlinear_arith);
        assert((c * c) * (b + w) == (c * c) * b + (c * c) * w) by (nonlinear_arith);
        assert(x - 0real == x);
    } else {
        let c = center;
        assert(2real * c * 0real == 0real && (c * c) * 0real == 0real) by (nonlinear_arith);
    }
}

/// The second central moment of the values that a state stands for is the weighted sum of the
/// squares of their deviations from their mean, so that over the weight it is their population
/// variance.
pub proof fn a_central_moment_is_the_sum_of_squared_deviations(
    c: Central,
    s: Seq<Weighed>,
    n: int,
)
    requires
        0 <= n <= s.len(),
        stands_for(c, s, n),
    ensures
        c.m2 == square_sum(s, c.mean, n),
        c.weight * c.mean == value_sum(s, n),
{
    lemma_moved_center(s, c.mean, n);
    let w = c.weight;
    let m = c.mean;
    assert(2real * m * (w * m) == 2real * (w * (m * m))) by (nonlinear_arith);
    assert((m * m) * w == w * (m * m)) by (nonlinear_arith);
}

/// The exact state that moments are turned into is the one they stand for, and a deviation whose
/// square is out of the normal range is that of the exact state.
pub proof fn an_exact_state_is_what_moments_stand_for(v: MomentsView, end: FloatEnd)
    requires
        !zero_bits(v.float.scale),
        !zero_bits(end.m2),
        !normal(end.variance),
    ensures
        exact_of(v) matches Ok(c) ==> c == state_of(v),
        moments_deviation(v, end) matches Ok(d) ==> deviation_of(state_of(v)) == Ok::<
            Deviation,
            Error,
        >(d),
{
}

} // verus!
