//! Arithmetic on real numbers that the solver needs to be told.
use vstd::prelude::*;

verus! {

pub proof fn lemma_spread(a: real, b: real, c: real)
    ensures
        a * (b + c) == a * b + a * c,
{
    assert(a * (b + c) == a * b + a * c) by (nonlinear_arith);
}

pub proof fn lemma_quotient(n: real, w: real)
    requires
        w != 0real,
    ensures
        (n / w) * w == n,
{
    assert((n / w) * w == n) by (nonlinear_arith)
        requires
            w != 0real,
    ;
}

pub proof fn lemma_undone(n: real, w: real)
    requires
        w != 0real,
    ensures
        (n * w) / w == n,
{
    assert((n * w) / w == n) by (nonlinear_arith)
        requires
            w != 0real,
    ;
}

/// Equals times equals.
pub proof fn lemma_scaled(k: real, x: real, y: real)
    requires
        x == y,
    ensures
        k * x == k * y,
{
}

pub proof fn lemma_assoc(a: real, b: real, c: real)
    ensures
        (a * b) * c == a * (b * c),
        (a * b) * c == (a * c) * b,
{
    assert((a * b) * c == a * (b * c)) by (nonlinear_arith);
    assert((a * b) * c == (a * c) * b) by (nonlinear_arith);
}

pub proof fn lemma_turned(a: real, b: real)
    ensures
        a * b == b * a,
{
    assert(a * b == b * a) by (nonlinear_arith);
}

/// A factor may be drawn out of a quotient.
pub proof fn lemma_drawn_out(n: real, b: real, w: real)
    requires
        w != 0real,
    ensures
        (n * b) / w == n * (b / w),
{
    let t = b / w;
    lemma_quotient(b, w);
    lemma_scaled(n, t * w, b);
    lemma_assoc(n, t, w);
    lemma_undone(n * t, w);
}

/// The weighted mean of two parts.
pub proof fn lemma_mean(wa: real, ma: real, wb: real, mb: real, t: real, w: real, d: real)
    requires
        t * w == wb,
        w == wa + wb,
        d == mb - ma,
    ensures
        w * (ma + d * t) == wa * ma + wb * mb,
{
    lemma_spread(w, ma, d * t);
    lemma_assoc(d, t, w);
    lemma_scaled(d, t * w, wb);
    lemma_turned(w, d * t);
    lemma_spread(ma, wa, wb);
    lemma_scaled(ma, w, wa + wb);
    lemma_turned(w, ma);
    lemma_spread(wb, d, ma);
    lemma_scaled(wb, d + ma, mb);
    lemma_turned(d, wb);
    lemma_turned(ma, wa);
    lemma_turned(ma, wb);
}

/// The second moment of two parts about zero.
pub proof fn lemma_second(
    wa: real,
    ma: real,
    wb: real,
    mb: real,
    t: real,
    w: real,
    d: real,
    m: real,
)
    requires
        t * w == wb,
        w == wa + wb,
        d == mb - ma,
        m == ma + d * t,
        w * m == wa * ma + wb * mb,
    ensures
        (d * d * wa) * t + w * (m * m) == wa * (ma * ma) + wb * (mb * mb),
{
    let s = wa * ma + wb * mb;
    let x = d * t;
    // w * m * m == s * m == s * ma + s * x.
    lemma_scaled(m, w * m, s);
    lemma_assoc(w, m, m);
    lemma_turned(m, w * m);
    assert(w * (m * m) == m * s);
    lemma_scaled(s, m, ma + x);
    lemma_spread(s, ma, x);
    lemma_turned(m, s);
    // d * wa + s == mb * w.
    lemma_spread(wa, d, ma);
    lemma_scaled(wa, d + ma, mb);
    lemma_spread(mb, wa, wb);
    lemma_scaled(mb, wa + wb, w);
    lemma_turned(d, wa);
    lemma_turned(mb, wa);
    lemma_turned(mb, wb);
    assert(d * wa + s == mb * w);
    // (d * d * wa) * t + s * x == x * (d * wa + s) == (d * mb) * wb.
    lemma_spread(x, d * wa, s);
    lemma_scaled(x, d * wa + s, mb * w);
    lemma_assoc(d, d, wa);
    lemma_assoc(d, d * wa, t);
    lemma_assoc(d, t, d * wa);
    lemma_turned(d * wa, t);
    assert((d * d * wa) * t == x * (d * wa));
    lemma_turned(s, x);
    lemma_assoc(d, t, mb * w);
    lemma_assoc(mb, w, t);
    lemma_assoc(mb, t, w);
    lemma_turned(t, mb * w);
    lemma_scaled(mb, t * w, wb);
    assert(x * (mb * w) == d * (mb * wb));
    // s * ma + d * (mb * wb) == wa * ma * ma + (mb * wb) * mb.
    lemma_spread(ma, wa * ma, wb * mb);
    lemma_turned(s, ma);
    lemma_spread(mb * wb, d, ma);
    lemma_scaled(mb * wb, d + ma, mb);
    lemma_turned(d, mb * wb);
    lemma_turned(ma, wb * mb);
    lemma_assoc(wa, ma, ma);
    lemma_turned(ma, wa * ma);
    lemma_assoc(wb, mb, mb);
    assert((mb * wb) * mb == (wb * mb) * mb);
}

pub proof fn lemma_product_sign(a: real, b: real)
    requires
        a >= 0real,
        b >= 0real,
    ensures
        a * b >= 0real,
{
    assert(a * b >= 0real) by (nonlinear_arith)
        requires
            a >= 0real,
            b >= 0real,
    ;
}

pub proof fn lemma_nothing(a: real)
    ensures
        0real * a == 0real,
{
    assert(0real * a == 0real) by (nonlinear_arith);
}

pub proof fn lemma_square_sign(a: real)
    ensures
        a * a >= 0real,
{
    assert(a * a >= 0real) by (nonlinear_arith);
}

pub proof fn lemma_quotient_sign(n: real, w: real)
    requires
        n >= 0real,
        w > 0real,
    ensures
        n / w >= 0real,
{
    assert(n / w >= 0real) by (nonlinear_arith)
        requires
            n >= 0real,
            w > 0real,
    ;
}

/// A share of at most one is at most the whole.
pub proof fn lemma_share(p: real, m: real)
    requires
        p <= 1real,
        m >= 0real,
    ensures
        p * m <= m,
{
    lemma_product_sign(1real - p, m);
    lemma_spread(m, 1real - p, p);
    lemma_turned(m, 1real - p);
    lemma_turned(m, p);
    lemma_one(m);
}

/// A factor is multiplied into a difference.
pub proof fn lemma_minus(a: real, b: real, c: real)
    ensures
        a * (b - c) == a * b - a * c,
        (b - c) * a == b * a - c * a,
{
    lemma_spread(a, b - c, c);
    lemma_scaled(a, (b - c) + c, b);
    lemma_turned(a, b - c);
    lemma_turned(a, b);
    lemma_turned(a, c);
}

/// Two differences are multiplied.
pub proof fn lemma_differences(a: real, b: real, c: real, d: real)
    ensures
        (a - b) * (c - d) == a * c - a * d - b * c + b * d,
{
    lemma_minus(a - b, c, d);
    lemma_minus(c, a, b);
    lemma_minus(d, a, b);
}

/// A factor that is not zero may be taken off.
pub proof fn lemma_cancelled(p: real, q: real, w: real)
    requires
        w != 0real,
        p * w == q * w,
    ensures
        p == q,
{
    lemma_undone(p, w);
    lemma_undone(q, w);
}

/// A quotient of parts of one sign lies between zero and one.
pub proof fn lemma_unit(n: real, d: real)
    requires
        (0real <= n <= d && d > 0real) || (d <= n <= 0real && d < 0real),
    ensures
        0real <= n / d <= 1real,
{
    if d > 0real {
        lemma_unit_positive(n, d);
    } else {
        let a = 0real - n;
        let b = 0real - d;
        let s = a / b;
        lemma_unit_positive(a, b);
        lemma_quotient(a, b);
        lemma_minus(s, 0real, d);
        lemma_nothing(s);
        lemma_turned(s, 0real);
        lemma_undone(s, d);
    }
}

proof fn lemma_unit_positive(n: real, d: real)
    requires
        0real <= n <= d,
        d > 0real,
    ensures
        0real <= n / d <= 1real,
{
    assert(0real <= n / d <= 1real) by (nonlinear_arith)
        requires
            0real <= n <= d,
            d > 0real,
    ;
}

/// A part of a number lies between zero and it.
pub proof fn lemma_part_of(t: real, d: real)
    requires
        0real <= t <= 1real,
    ensures
        d >= 0real ==> 0real <= t * d <= d,
        d <= 0real ==> d <= t * d <= 0real,
{
    if d >= 0real {
        lemma_product_sign(t, d);
        lemma_share(t, d);
    } else {
        let e = 0real - d;
        lemma_product_sign(t, e);
        lemma_share(t, e);
        lemma_minus(t, 0real, d);
        lemma_nothing(t);
        lemma_turned(t, 0real);
    }
}

pub proof fn lemma_product_positive(a: real, b: real)
    requires
        a > 0real,
        b > 0real,
    ensures
        a * b > 0real,
{
    assert(a * b > 0real) by (nonlinear_arith)
        requires
            a > 0real,
            b > 0real,
    ;
}

/// Numbers that two products with one factor keep to opposite sides.
pub proof fn lemma_opposed(d: real, q: real, w: real)
    requires
        d * q >= 0real,
        (d < 0real && w >= 0real) || (d > 0real && w <= 0real),
    ensures
        q * w <= 0real,
{
    if d < 0real {
        if q > 0real {
            lemma_product_positive(0real - d, q);
            lemma_minus(q, 0real, d);
            lemma_nothing(q);
        }
        lemma_product_sign(0real - q, w);
        lemma_minus(w, 0real, q);
        lemma_nothing(w);
    } else {
        if q < 0real {
            lemma_product_positive(d, 0real - q);
            lemma_minus(d, 0real, q);
            lemma_nothing(d);
            lemma_turned(d, 0real);
        }
        lemma_product_sign(q, 0real - w);
        lemma_minus(q, 0real, w);
        lemma_nothing(q);
        lemma_turned(q, 0real);
    }
}

pub proof fn lemma_one(m: real)
    ensures
        m * 1real == m,
{
    assert(m * 1real == m) by (nonlinear_arith);
}

} // verus!
