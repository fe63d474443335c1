//! Doubles as exact integers. Every finite double is a whole number of units of 2^-1074, so
//! sums of doubles are sums of integers.
use vstd::arithmetic::power2::{
    lemma2_to64, lemma2_to64_rest, lemma_pow2_adds, lemma_pow2_pos, lemma_pow2_unfold, pow2,
};
use vstd::prelude::*;

use crate::skv_header::{finite_bits, is_finite_bits};

verus! {

/// The largest coefficient that an exact sum may have.
pub const COEFFICIENT_LIMIT: u128 = 0x10_0000_0000_0000_0000_0000_0000;

pub open spec fn negative(bits: u64) -> bool {
    bits >= 0x8000_0000_0000_0000
}

/// The exponent field of a double.
pub open spec fn field_of(bits: u64) -> int {
    (bits / 0x10_0000_0000_0000 % 2048) as int
}

/// The significand of a double, its hidden bit included.
pub open spec fn magnitude_of(bits: u64) -> nat {
    if field_of(bits) == 0 {
        (bits % 0x10_0000_0000_0000) as nat
    } else {
        (bits % 0x10_0000_0000_0000 + 0x10_0000_0000_0000) as nat
    }
}

/// How often the significand is doubled.
pub open spec fn place_of(bits: u64) -> nat {
    if field_of(bits) == 0 {
        0
    } else {
        (field_of(bits) - 1) as nat
    }
}

/// The size of a finite double, in units of 2^-1074.
pub open spec fn size_of_bits(bits: u64) -> nat {
    magnitude_of(bits) * pow2(place_of(bits))
}

/// The value of a finite double, in units of 2^-1074.
pub open spec fn units(bits: u64) -> int {
    if negative(bits) {
        -(size_of_bits(bits) as int)
    } else {
        size_of_bits(bits) as int
    }
}

/// A number of units is the value of a double.
pub open spec fn representable(value: int) -> bool {
    exists|bits: u64| finite_bits(bits) && #[trigger] units(bits) == value
}

/// `coefficient` at the binary place `exponent`, in units of 2^-1074.
pub open spec fn at_place(coefficient: int, exponent: int) -> int {
    coefficient * pow2((exponent + 1074) as nat)
}

pub proof fn lemma_twice(n: nat)
    ensures
        pow2(n + 1) == 2 * pow2(n),
        pow2(n) >= 1,
{
    lemma_pow2_unfold(n + 1);
    lemma_pow2_pos(n);
}

pub proof fn lemma_grows(a: nat, b: nat)
    requires
        a <= b,
    ensures
        1 <= pow2(a) <= pow2(b),
    decreases b,
{
    lemma_pow2_pos(a);
    if a < b {
        lemma_grows(a, (b - 1) as nat);
        lemma_twice((b - 1) as nat);
    }
}

pub proof fn lemma_powers()
    ensures
        pow2(0) == 1,
        pow2(1) == 2,
        pow2(47) == 0x8000_0000_0000,
        pow2(48) == 0x1_0000_0000_0000,
        pow2(52) == 0x10_0000_0000_0000,
        pow2(53) == 0x20_0000_0000_0000,
        pow2(100) == COEFFICIENT_LIMIT,
        pow2(101) == 2 * COEFFICIENT_LIMIT,
{
    lemma2_to64();
    lemma2_to64_rest();
    lemma_pow2_adds(50, 50);
    lemma_twice(100);
    assert(0x4_0000_0000_0000 * 0x4_0000_0000_0000 == COEFFICIENT_LIMIT) by (nonlinear_arith);
}

/// The parts of a double.
proof fn lemma_parts(bits: u64)
    ensures
        0 <= field_of(bits) < 2048,
        magnitude_of(bits) < 0x20_0000_0000_0000,
        field_of(bits) > 0 ==> magnitude_of(bits) >= 0x10_0000_0000_0000,
        field_of(bits) == 0 ==> magnitude_of(bits) < 0x10_0000_0000_0000,
        bits == (if negative(bits) {
            0x8000_0000_0000_0000int
        } else {
            0
        }) + field_of(bits) * 0x10_0000_0000_0000 + bits % 0x10_0000_0000_0000,
        finite_bits(bits) == (field_of(bits) <= 2046),
        place_of(bits) <= 2046,
{
}

/// Take the factors two out of a number.
fn odd_part(value: u128) -> (r: (u128, u32))
    requires
        value > 0,
    ensures
        r.0 % 2 == 1,
        r.0 * pow2(r.1 as nat) == value,
        r.1 < 128,
        r.0 <= value,
{
    let mut odd: u128 = value;
    let mut twos: u32 = 0;
    proof {
        lemma2_to64();
        lemma_pow2_pos(0);
        assert(value * 1 == value);
    }
    while odd % 2 == 0
        invariant
            odd > 0,
            odd <= value,
            odd * pow2(twos as nat) == value,
            twos <= 128,
            value <= u128::MAX,
        decreases odd,
    {
        proof {
            lemma_twice(twos as nat);
            let h = odd as int / 2;
            let p = pow2(twos as nat) as int;
            assert(h * (2 * p) == (2 * h) * p) by (nonlinear_arith);
            assert(2 * h == odd);
            if twos >= 127 {
                lemma_grows(127, twos as nat);
                lemma_pow2_adds(64, 63);
                lemma2_to64();
                lemma2_to64_rest();
                assert(0x1_0000_0000_0000_0000int * 0x8000_0000_0000_0000int
                    == 0x8000_0000_0000_0000_0000_0000_0000_0000int) by (nonlinear_arith);
                assert(odd * p >= 2 * 0x8000_0000_0000_0000_0000_0000_0000_0000int) by (
                    nonlinear_arith)
                    requires
                        odd >= 2,
                        p >= 0x8000_0000_0000_0000_0000_0000_0000_0000int,
                ;
            }
        }
        odd = odd / 2;
        twos = twos + 1;
    }
    proof {
        if twos >= 128 {
            lemma_grows(128, twos as nat);
            lemma_pow2_adds(64, 64);
            lemma2_to64();
            assert(0x1_0000_0000_0000_0000int * 0x1_0000_0000_0000_0000int
                == 0x1_0000_0000_0000_0000_0000_0000_0000_0000int) by (nonlinear_arith);
            let p = pow2(twos as nat) as int;
            assert(odd * p >= p) by (nonlinear_arith)
                requires
                    odd >= 1,
                    p >= 0,
            ;
        }
    }
    (odd, twos)
}

/// Canonical signed odd coefficient and binary exponent of a finite double.
pub fn dyadic(bits: u64) -> (r: Option<(i128, i32)>)
    ensures
        match r {
            None => !finite_bits(bits),
            Some((c, e)) => {
                &&& finite_bits(bits)
                &&& -1074 <= e <= 1023
                &&& units(bits) == at_place(c as int, e as int)
                &&& -0x20_0000_0000_0000 < c < 0x20_0000_0000_0000
                &&& c == 0 ==> e == 0 && units(bits) == 0
                &&& c != 0 ==> (if c < 0 {
                    -c
                } else {
                    c as int
                }) % 2 == 1
            },
        },
{
    if !is_finite_bits(bits) {
        return None;
    }
    proof {
        lemma_parts(bits);
        lemma_pow2_pos(place_of(bits));
    }
    let field: u64 = bits / 0x10_0000_0000_0000 % 2048;
    let fraction: u64 = bits % 0x10_0000_0000_0000;
    let magnitude: u64 = if field == 0 {
        fraction
    } else {
        fraction + 0x10_0000_0000_0000
    };
    let place: u32 = if field == 0 {
        0
    } else {
        (field - 1) as u32
    };
    if magnitude == 0 {
        proof {
            assert(0 * pow2(place_of(bits)) == 0) by (nonlinear_arith);
            assert(0 * pow2(1074) == 0) by (nonlinear_arith);
        }
        return Some((0, 0));
    }
    let (odd, twos) = odd_part(magnitude as u128);
    proof {
        // 2^52 and more factors would make the significand too large.
        if twos >= 53 {
            lemma_powers();
            lemma_grows(53, twos as nat);
            let p = pow2(twos as nat) as int;
            assert(odd * p >= p) by (nonlinear_arith)
                requires
                    odd >= 1,
                    p >= 0,
            ;
        }
        let a = pow2(twos as nat) as int;
        let b = pow2(place as nat) as int;
        lemma_pow2_adds(twos as nat, place as nat);
        assert(odd * (a * b) == (odd * a) * b) by (nonlinear_arith);
        let k = pow2((twos + place) as nat) as int;
        assert((-(odd as int)) * k == -(odd * k)) by (nonlinear_arith);
    }
    let coefficient: i128 = odd as i128;
    let exponent: i32 = place as i32 + twos as i32 - 1074;
    if bits >= 0x8000_0000_0000_0000 {
        Some((-coefficient, exponent))
    } else {
        Some((coefficient, exponent))
    }
}

/// How many binary digits a number has.
fn bit_length(value: u128) -> (r: u32)
    requires
        0 < value <= COEFFICIENT_LIMIT,
    ensures
        1 <= r <= 101,
        pow2((r - 1) as nat) <= value < pow2(r as nat),
{
    let mut length: u32 = 0;
    let mut rest: u128 = value;
    proof {
        lemma_powers();
    }
    while rest > 0
        invariant
            length <= 101,
            value <= COEFFICIENT_LIMIT,
            value > 0,
            rest == value as int / pow2(length as nat) as int,
            length > 0 ==> pow2((length - 1) as nat) <= value,
        decreases rest,
    {
        proof {
            let p = pow2(length as nat) as int;
            lemma_twice(length as nat);
            vstd::arithmetic::div_mod::lemma_div_denominator(value as int, p, 2);
            assert(p * 2 == pow2((length + 1) as nat));
            vstd::arithmetic::div_mod::lemma_fundamental_div_mod(value as int, p);
            assert(p <= value) by (nonlinear_arith)
                requires
                    value == p * rest + value as int % p,
                    rest >= 1,
                    0 <= value as int % p,
                    p >= 1,
            ;
            if length >= 101 {
                lemma_powers();
                lemma_grows(101, length as nat);
            }
        }
        rest = rest / 2;
        length = length + 1;
    }
    proof {
        let p = pow2(length as nat) as int;
        lemma_pow2_pos(length as nat);
        vstd::arithmetic::div_mod::lemma_fundamental_div_mod(value as int, p);
        assert(value < p) by (nonlinear_arith)
            requires
                value == p * 0 + value as int % p,
                0 <= value as int % p < p,
        ;
        if length == 0 {
            lemma2_to64();
        }
    }
    length
}

/// Double a number `twos` times, where it stays within the limit.
pub fn doubled(value: u128, twos: u32) -> (r: Option<u128>)
    requires
        value > 0,
    ensures
        match r {
            Some(v) => v == value * pow2(twos as nat) && v <= COEFFICIENT_LIMIT,
            None => value * pow2(twos as nat) > COEFFICIENT_LIMIT,
        },
{
    let mut result: u128 = value;
    let mut k: u32 = 0;
    proof {
        lemma2_to64();
        assert(value * 1 == value);
    }
    if value > COEFFICIENT_LIMIT {
        proof {
            lemma_pow2_pos(twos as nat);
            let p = pow2(twos as nat) as int;
            assert(value * p >= value) by (nonlinear_arith)
                requires
                    p >= 1,
                    value >= 0,
            ;
        }
        return None;
    }
    while k < twos
        invariant
            k <= twos,
            value > 0,
            result == value * pow2(k as nat),
            result <= COEFFICIENT_LIMIT,
        decreases twos - k,
    {
        proof {
            lemma_twice(k as nat);
            let p = pow2(k as nat) as int;
            assert(value * (2 * p) == 2 * (value * p)) by (nonlinear_arith);
        }
        if result > COEFFICIENT_LIMIT / 2 {
            proof {
                lemma_grows((k + 1) as nat, twos as nat);
                let p = pow2((k + 1) as nat) as int;
                let q = pow2(twos as nat) as int;
                assert(value * q >= value * p) by (nonlinear_arith)
                    requires
                        q >= p,
                        value >= 0,
                ;
            }
            return None;
        }
        result = result * 2;
        k = k + 1;
    }
    Some(result)
}

/// An odd number at a place has no other form.
proof fn lemma_odd_form(odd: int, k: nat, mag: int, place: nat)
    requires
        odd > 0,
        odd % 2 == 1,
        mag >= 0,
        odd * pow2(k) == mag * pow2(place),
    ensures
        odd <= mag,
{
    lemma_pow2_pos(k);
    lemma_pow2_pos(place);
    if k >= place {
        let d = (k - place) as nat;
        lemma_pow2_adds(place, d);
        lemma_pow2_pos(d);
        let p = pow2(place) as int;
        let q = pow2(d) as int;
        assert(odd * (p * q) == (odd * q) * p) by (nonlinear_arith);
        assert(odd * q == mag) by (nonlinear_arith)
            requires
                (odd * q) * p == mag * p,
                p >= 1,
        ;
        assert(odd <= odd * q) by (nonlinear_arith)
            requires
                odd > 0,
                q >= 1,
        ;
    } else {
        let d = (place - k) as nat;
        lemma_pow2_adds(k, d);
        lemma_twice((d - 1) as nat);
        let p = pow2(k) as int;
        let q = pow2((d - 1) as nat) as int;
        assert(mag * (p * (2 * q)) == (mag * q * 2) * p) by (nonlinear_arith);
        assert(odd == mag * q * 2) by (nonlinear_arith)
            requires
                odd * p == (mag * q * 2) * p,
                p >= 1,
        ;
    }
}

/// The largest double is below 2^1024.
proof fn lemma_largest(bits: u64)
    requires
        finite_bits(bits),
    ensures
        size_of_bits(bits) < pow2(2098),
{
    lemma_parts(bits);
    lemma_powers();
    lemma_grows(place_of(bits), 2045);
    lemma_pow2_adds(53, 2045);
    let m = magnitude_of(bits) as int;
    let p = pow2(place_of(bits)) as int;
    let q = pow2(2045) as int;
    assert(m * p < 0x20_0000_0000_0000 * q) by (nonlinear_arith)
        requires
            0 <= m < 0x20_0000_0000_0000,
            1 <= p <= q,
    ;
}

proof fn lemma_bits(sign: bool, field: int, rest: int)
    requires
        0 <= field < 2048,
        0 <= rest < 0x10_0000_0000_0000,
    ensures
        ({
            let bits = ((if sign {
                0x8000_0000_0000_0000int
            } else {
                0
            }) + field * 0x10_0000_0000_0000 + rest) as u64;
            &&& bits == (if sign {
                0x8000_0000_0000_0000int
            } else {
                0
            }) + field * 0x10_0000_0000_0000 + rest
            &&& negative(bits) == sign
            &&& field_of(bits) == field
            &&& bits % 0x10_0000_0000_0000 == rest
        }),
{
}

/// The double of `coefficient` at the binary place `exponent`, where there is one. Neither an
/// intermediate overflow nor an underflow can occur.
pub fn scaled_integer(coefficient: i128, exponent: i32) -> (r: Option<u64>)
    requires
        -1074 <= exponent <= 1048576,
        -COEFFICIENT_LIMIT <= coefficient <= COEFFICIENT_LIMIT,
    ensures
        match r {
            Some(bits) => finite_bits(bits) && units(bits) == at_place(
                coefficient as int,
                exponent as int,
            ),
            None => !representable(at_place(coefficient as int, exponent as int)),
        },
{
    if coefficient == 0 {
        proof {
            lemma_parts(0);
            let p = pow2((exponent + 1074) as nat) as int;
            let q = pow2(place_of(0)) as int;
            assert(0 * p == 0 && 0 * q == 0) by (nonlinear_arith);
        }
        return Some(0);
    }
    let sign: bool = coefficient < 0;
    let size: u128 = if sign {
        (-coefficient) as u128
    } else {
        coefficient as u128
    };
    let (odd, twos) = odd_part(size);
    let length: u32 = bit_length(odd);
    let place: i32 = exponent + twos as i32;
    let ghost k = (place + 1074) as nat;
    let ghost goal = at_place(coefficient as int, exponent as int);
    proof {
        let a = pow2(twos as nat) as int;
        let b = pow2((exponent + 1074) as nat) as int;
        lemma_pow2_adds(twos as nat, (exponent + 1074) as nat);
        assert(odd * (a * b) == (odd * a) * b) by (nonlinear_arith);
        assert(size * b == odd * pow2(k));
        assert((-(size as int)) * b == -(size * b)) by (nonlinear_arith);
        assert(goal == if sign {
            -(odd * pow2(k))
        } else {
            odd * pow2(k)
        });
        lemma_pow2_pos(k);
        assert(odd * pow2(k) >= 1) by (nonlinear_arith)
            requires
                odd >= 1,
                pow2(k) >= 1,
        ;
    }
    if length > 53 {
        proof {
            lemma_powers();
            lemma_grows(53, (length - 1) as nat);
            assert forall|bits: u64| finite_bits(bits) implies #[trigger] units(bits) != goal by {
                lemma_parts(bits);
                if units(bits) == goal {
                    lemma_odd_form(odd as int, k, magnitude_of(bits) as int, place_of(bits));
                }
            }
        }
        return None;
    }
    let highest: i32 = place + length as i32 - 1;
    if highest > 1023 {
        proof {
            lemma_grows(2098, (highest + 1074) as nat);
            lemma_pow2_adds((length - 1) as nat, k);
            let h = pow2((length - 1) as nat) as int;
            let p = pow2(k) as int;
            assert(odd * p >= h * p) by (nonlinear_arith)
                requires
                    odd >= h,
                    p >= 0,
            ;
            assert forall|bits: u64| finite_bits(bits) implies #[trigger] units(bits) != goal by {
                lemma_largest(bits);
            }
        }
        return None;
    }
    proof {
        lemma_powers();
    }
    if highest >= -1022 {
        let lift: u32 = 53 - length;
        proof {
            lemma_lifted(odd as int, length as nat, 53);
        }
        match doubled(odd, lift) {
            None => {
                assert(false);
                None
            },
            Some(significand) => {
                let rest: u64 = (significand - 0x10_0000_0000_0000) as u64;
                let field: u64 = (highest + 1023) as u64;
                proof {
                    lemma_bits(sign, field as int, rest as int);
                    let a = pow2(lift as nat) as int;
                    let b = pow2((field - 1) as nat) as int;
                    lemma_pow2_adds(lift as nat, (field - 1) as nat);
                    assert(odd * (a * b) == (odd * a) * b) by (nonlinear_arith);
                    assert(lift + (field - 1) == k);
                }
                let bits: u64 = field * 0x10_0000_0000_0000 + rest;
                if sign {
                    Some(0x8000_0000_0000_0000 + bits)
                } else {
                    Some(bits)
                }
            },
        }
    } else {
        let lift: u32 = (place + 1074) as u32;
        proof {
            lemma_lifted(odd as int, length as nat, (length + lift) as nat);
            lemma_grows((length + lift) as nat, 52);
        }
        match doubled(odd, lift) {
            None => {
                assert(false);
                None
            },
            Some(significand) => {
                let bits: u64 = significand as u64;
                proof {
                    lemma_bits(sign, 0, bits as int);
                    lemma2_to64();
                    assert(significand * 1 == significand);
                }
                if sign {
                    Some(0x8000_0000_0000_0000 + bits)
                } else {
                    Some(bits)
                }
            },
        }
    }
}

/// A number of `length` digits, doubled until it has `total`.
proof fn lemma_lifted(odd: int, length: nat, total: nat)
    requires
        length >= 1,
        length <= total <= 100,
        pow2((length - 1) as nat) <= odd < pow2(length),
    ensures
        pow2((total - 1) as nat) <= odd * pow2((total - length) as nat) < pow2(total),
        pow2(total) <= COEFFICIENT_LIMIT,
{
    let d = (total - length) as nat;
    lemma_pow2_adds((length - 1) as nat, d);
    lemma_pow2_adds(length, d);
    lemma_pow2_pos(d);
    lemma_powers();
    lemma_grows(total, 100);
    let p = pow2(d) as int;
    let lo = pow2((length - 1) as nat) as int;
    let hi = pow2(length) as int;
    assert(lo * p <= odd * p < hi * p) by (nonlinear_arith)
        requires
            lo <= odd < hi,
            p >= 1,
    ;
}

/// How often a number is halved until it has at most 53 binary digits.
pub open spec fn excess(m: nat) -> nat
    decreases m,
{
    if m < 0x20_0000_0000_0000 {
        0
    } else {
        1 + excess(m / 2)
    }
}

/// A number rounded to 53 binary digits, to the nearest and from the middle to the even one,
/// in units of its last digit.
pub open spec fn rounded(m: nat) -> nat {
    let unit = pow2(excess(m)) as int;
    let q = m as int / unit;
    let r = m as int % unit;
    (if 2 * r > unit || (2 * r == unit && q % 2 == 1) {
        q + 1
    } else {
        q
    }) as nat
}

/// The head of a coefficient: its 53 leading binary digits, rounded.
pub open spec fn head_of(coefficient: int) -> int {
    let m = (if coefficient < 0 {
        -coefficient
    } else {
        coefficient
    }) as nat;
    let head = rounded(m) * pow2(excess(m));
    if coefficient < 0 {
        -(head as int)
    } else {
        head as int
    }
}

/// The residual of a rounded head is at most half of its last digit.
proof fn lemma_head(m: nat)
    requires
        m <= COEFFICIENT_LIMIT,
    ensures
        excess(m) <= 48,
        rounded(m) <= 0x20_0000_0000_0000,
        -0x8000_0000_0000 <= m - rounded(m) * pow2(excess(m)) <= 0x8000_0000_0000,
{
    lemma_powers();
    assert(0x10_0000_0000_0000int * 0x1_0000_0000_0000int == COEFFICIENT_LIMIT) by (
        nonlinear_arith);
    lemma_excess(m, 48);
    let e = excess(m);
    let unit = pow2(e) as int;
    lemma_pow2_pos(e);
    lemma_powers();
    lemma_grows(e, 48);
    vstd::arithmetic::div_mod::lemma_fundamental_div_mod(m as int, unit);
    let q = m as int / unit;
    let r = m as int % unit;
    assert(unit * q == q * unit && (q + 1) * unit == q * unit + unit) by (nonlinear_arith);
}

proof fn lemma_excess(m: nat, n: nat)
    requires
        m <= 0x10_0000_0000_0000 * pow2(n),
    ensures
        excess(m) <= n,
        m / pow2(excess(m)) < 0x20_0000_0000_0000,
    decreases m,
{
    if m < 0x20_0000_0000_0000 {
        lemma2_to64();
    } else {
        lemma2_to64();
        if n > 0 {
            lemma_twice((n - 1) as nat);
            lemma_excess(m / 2, (n - 1) as nat);
            let e = excess(m / 2);
            lemma_twice(e);
            vstd::arithmetic::div_mod::lemma_div_denominator(m as int, 2, pow2(e) as int);
        }
    }
}

/// A number of units is `coefficient` at the binary place `exponent`.
pub open spec fn placed(coefficient: int, exponent: int, value: int) -> bool {
    if exponent >= -1074 {
        value == at_place(coefficient, exponent)
    } else {
        value * pow2((-1074 - exponent) as nat) == coefficient
    }
}

/// A double has the value of `coefficient` at the binary place `exponent`.
pub open spec fn fits_place(coefficient: int, exponent: int) -> bool {
    exists|value: int| #[trigger] placed(coefficient, exponent, value) && representable(value)
}

/// A number that is not zero is too large at a high place.
proof fn lemma_too_high(coefficient: int, exponent: int)
    requires
        coefficient != 0,
        exponent > 2048,
    ensures
        !fits_place(coefficient, exponent),
{
    let p = pow2((exponent + 1074) as nat) as int;
    lemma_grows(2098, (exponent + 1074) as nat);
    assert(coefficient * p >= p || coefficient * p <= -p) by (nonlinear_arith)
        requires
            coefficient != 0,
            p >= 1,
    ;
    assert forall|bits: u64| finite_bits(bits) implies #[trigger] units(bits) != at_place(
        coefficient,
        exponent,
    ) by {
        lemma_largest(bits);
    }
}

proof fn lemma_cancel(a: int, b: int, p: int)
    requires
        p >= 1,
    ensures
        (a * p == b * p) == (a == b),
{
    assert((a * p == b * p) ==> a == b) by (nonlinear_arith)
        requires
            p >= 1,
    ;
}

/// Doubling a number lowers its place.
proof fn lemma_shifted(coefficient: int, exponent: int, shift: nat, value: int)
    ensures
        placed(coefficient, exponent + shift, value) == placed(
            coefficient * pow2(shift),
            exponent,
            value,
        ),
{
    let p = pow2(shift) as int;
    lemma_pow2_pos(shift);
    if exponent >= -1074 {
        let q = pow2((exponent + 1074) as nat) as int;
        lemma_pow2_adds(shift, (exponent + 1074) as nat);
        assert(coefficient * (p * q) == (coefficient * p) * q) by (nonlinear_arith);
    } else if exponent + shift >= -1074 {
        let d = (-1074 - exponent) as nat;
        let k = (exponent + shift + 1074) as nat;
        let q = pow2(d) as int;
        let r = pow2(k) as int;
        lemma_pow2_adds(k, d);
        lemma_pow2_pos(d);
        assert((coefficient * r) * q == coefficient * (r * q)) by (nonlinear_arith);
        lemma_cancel(value, coefficient * r, q);
    } else {
        let d = (-1074 - exponent) as nat;
        let k = (-1074 - exponent - shift) as nat;
        let q = pow2(d) as int;
        let r = pow2(k) as int;
        lemma_pow2_adds(k, shift);
        assert(value * (r * p) == (value * r) * p) by (nonlinear_arith);
        lemma_cancel(value * r, coefficient, p);
    }
}

/// The sum of two numbers at one place.
proof fn lemma_placed_sum(a: int, b: int, exponent: int, x: int, y: int)
    requires
        placed(a, exponent, x),
        placed(b, exponent, y),
    ensures
        placed(a + b, exponent, x + y),
{
    if exponent >= -1074 {
        let p = pow2((exponent + 1074) as nat) as int;
        assert(a * p + b * p == (a + b) * p) by (nonlinear_arith);
    } else {
        let p = pow2((-1074 - exponent) as nat) as int;
        assert(x * p + y * p == (x + y) * p) by (nonlinear_arith);
    }
}

proof fn lemma_zero_bits()
    ensures
        units(0) == 0,
        finite_bits(0),
{
    lemma_parts(0);
    let q = pow2(place_of(0)) as int;
    assert(0 * q == 0) by (nonlinear_arith);
}

/// The double of `coefficient` at any binary place, where there is one.
fn at_any_place(coefficient: i128, exponent: i32) -> (r: Option<u64>)
    requires
        -COEFFICIENT_LIMIT <= coefficient <= COEFFICIENT_LIMIT,
    ensures
        match r {
            Some(bits) => finite_bits(bits) && placed(
                coefficient as int,
                exponent as int,
                units(bits),
            ),
            None => !fits_place(coefficient as int, exponent as int),
        },
{
    let ghost c = coefficient as int;
    let ghost e = exponent as int;
    if coefficient == 0 {
        proof {
            lemma_zero_bits();
            let p = pow2((e + 1074) as nat) as int;
            let q = pow2((-1074 - e) as nat) as int;
            assert(0 * p == 0 && 0 * q == 0) by (nonlinear_arith);
        }
        return Some(0);
    }
    if exponent > 2048 {
        proof {
            lemma_too_high(c, e);
        }
        return None;
    }
    if exponent >= -1074 {
        return scaled_integer(coefficient, exponent);
    }
    let sign: bool = coefficient < 0;
    let size: u128 = if sign {
        (-coefficient) as u128
    } else {
        coefficient as u128
    };
    let (odd, twos) = odd_part(size);
    let signed: i128 = if sign {
        -(odd as i128)
    } else {
        odd as i128
    };
    let ghost p = pow2(twos as nat) as int;
    proof {
        assert((-(odd as int)) * p == -(odd * p)) by (nonlinear_arith);
        assert(signed * p == c);
        assert forall|value: int|
            #[trigger] placed(c, e, value) == placed(signed as int, e + twos, value) by {
            lemma_shifted(signed as int, e, twos as nat, value);
        }
    }
    let place: i32 = exponent + twos as i32;
    if place >= -1074 {
        return scaled_integer(signed, place);
    }
    proof {
        let d = (-1074 - place) as nat;
        lemma_twice((d - 1) as nat);
        let q = pow2((d - 1) as nat) as int;
        assert forall|value: int| !(#[trigger] placed(c, e, value)) by {
            if placed(c, e, value) {
                assert(placed(signed as int, e + twos, value));
                assert(value * (2 * q) == 2 * (value * q)) by (nonlinear_arith);
                assert(signed == 2 * (value * q));
            }
        }
    }
    None
}

/// The two doubles whose sum is `coefficient` at the binary place `exponent` exactly: the head,
/// and what rounding it left. Where either is no double, there is none.
pub fn exact_sum(coefficient: i128, exponent: i32) -> (r: Option<(u64, u64)>)
    ensures
        ({
            let c = coefficient as int;
            let e = exponent as int;
            match r {
                Some((high, low)) => {
                    &&& -COEFFICIENT_LIMIT <= c <= COEFFICIENT_LIMIT
                    &&& finite_bits(high)
                    &&& finite_bits(low)
                    &&& placed(head_of(c), e, units(high))
                    &&& placed(c - head_of(c), e, units(low))
                    &&& placed(c, e, units(high) + units(low))
                },
                None => {
                    ||| c < -COEFFICIENT_LIMIT
                    ||| c > COEFFICIENT_LIMIT
                    ||| !fits_place(head_of(c), e)
                    ||| !fits_place(c - head_of(c), e)
                },
            }
        }),
{
    if coefficient < -(COEFFICIENT_LIMIT as i128) || coefficient > COEFFICIENT_LIMIT as i128 {
        return None;
    }
    if exponent > 2048 && coefficient != 0 {
        proof {
            let c = coefficient as int;
            if head_of(c) != 0 {
                lemma_too_high(head_of(c), exponent as int);
            } else {
                lemma_too_high(c, exponent as int);
            }
        }
        return None;
    }
    let sign: bool = coefficient < 0;
    let size: u128 = if sign {
        (-coefficient) as u128
    } else {
        coefficient as u128
    };
    let ghost m = size as nat;
    proof {
        lemma_powers();
        lemma_head(m);
        lemma_pow2_pos(0);
        assert(size as int / 1 == size);
    }
    let mut head: u128 = size;
    let mut unit: u128 = 1;
    let mut shift: u32 = 0;
    while head >= 0x20_0000_0000_0000
        invariant
            m == size,
            unit == pow2(shift as nat),
            head == size as int / unit as int,
            excess(m) == shift + excess(head as nat),
            excess(m) <= 48,
            unit >= 1,
        decreases head,
    {
        proof {
            lemma_twice(shift as nat);
            lemma_grows(shift as nat, 48);
            lemma_powers();
            vstd::arithmetic::div_mod::lemma_div_denominator(size as int, unit as int, 2);
        }
        head = head / 2;
        unit = unit * 2;
        shift = shift + 1;
    }
    proof {
        lemma_grows(shift as nat, 48);
        lemma_powers();
    }
    let rest: u128 = size % unit;
    if 2 * rest > unit || (2 * rest == unit && head % 2 == 1) {
        head = head + 1;
    }
    assert(head == rounded(m));
    proof {
        let h = head as int;
        let u = unit as int;
        assert(h * u <= 0x20_0000_0000_0000 * 0x1_0000_0000_0000) by (nonlinear_arith)
            requires
                0 <= h <= 0x20_0000_0000_0000,
                0 <= u <= 0x1_0000_0000_0000,
        ;
    }
    let whole: i128 = (head * unit) as i128;
    let signed_head: i128 = if sign {
        -(head as i128)
    } else {
        head as i128
    };
    let residual: i128 = if sign {
        coefficient + whole
    } else {
        coefficient - whole
    };
    let ghost c = coefficient as int;
    let ghost e = exponent as int;
    proof {
        let u = unit as int;
        let sh = signed_head as int;
        assert((-(head as int)) * u == -(head * u)) by (nonlinear_arith);
        assert(sh * u == head_of(c));
        assert forall|value: int|
            #[trigger] placed(head_of(c), e, value) == placed(sh, e + shift, value) by {
            lemma_shifted(sh, e, shift as nat, value);
        }
    }
    let place: i32 = if exponent > 2048 {
        exponent
    } else {
        exponent + shift as i32
    };
    let high: u64 = match at_any_place(signed_head, place) {
        Some(high) => high,
        None => return None,
    };
    let low: u64 = match at_any_place(residual, exponent) {
        Some(low) => low,
        None => return None,
    };
    proof {
        lemma_placed_sum(head_of(c), c - head_of(c), e, units(high), units(low));
    }
    Some((high, low))
}

} // verus!
