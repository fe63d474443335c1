//! What category counts, fractions, majority and variety say of the cells that were counted.
use vstd::arithmetic::power2::{lemma_pow2_pos, pow2};
use vstd::prelude::*;

use crate::algebra::{lemma_quotient, lemma_undone};
use crate::categories::{
    both_masses, counted, counts_to, coverage_bits, holds_counts, mass_sum, mass_value,
    plain_zero, rising, seen, CategoryResult, MASS_BITS,
};
use crate::dyadic::{size_of_bits, units};
use crate::error::Error;
use crate::rational::{bit_length, nearest, value_of};

verus! {

/// The sum of the first `n` numbers of a list.
pub open spec fn real_sum(q: Seq<real>, n: int) -> real
    decreases n,
{
    if n <= 0 {
        0real
    } else {
        real_sum(q, n - 1) + q[n - 1]
    }
}

/// Numbers from zero to one that stand to each other as the masses do, and add up to one.
pub open spec fn parts_of(m: Seq<nat>, q: Seq<real>) -> bool {
    &&& q.len() == m.len()
    &&& forall|i: int| 0 <= i < q.len() ==> 0real <= #[trigger] q[i] <= 1real
    &&& forall|i: int, j: int|
        0 <= i < q.len() && 0 <= j < q.len() ==> #[trigger] q[i] * (m[j] as real)
            == #[trigger] q[j] * (m[i] as real)
    &&& real_sum(q, q.len() as int) == 1real
}

/// Something was counted.
pub open spec fn weighs(m: Seq<nat>) -> bool {
    exists|k: int| 0 <= k < m.len() && #[trigger] m[k] > 0
}

/// Each fraction is the double of the part that its category has of all the mass; there is none
/// where nothing was counted.
pub open spec fn fractions_hold(m: Seq<nat>, fractions: Seq<Option<u64>>) -> bool {
    &&& fractions.len() == m.len()
    &&& !weighs(m) ==> forall|i: int| 0 <= i < m.len() ==> (#[trigger] fractions[i]) is None
    &&& weighs(m) ==> exists|q: Seq<real>| #[trigger]
        parts_of(m, q) && forall|i: int|
            0 <= i < m.len() ==> (#[trigger] fractions[i]) is Some && fractions[i] == nearest(q[i])
}

proof fn lemma_quotients_add(a: real, b: real, t: real)
    requires
        t != 0real,
    ensures
        a / t + b / t == (a + b) / t,
{
    lemma_quotient(a, t);
    lemma_quotient(b, t);
    let x = a / t;
    let y = b / t;
    assert((x + y) * t == x * t + y * t) by (nonlinear_arith);
    lemma_undone(x + y, t);
}

proof fn lemma_sum_of_parts(m: Seq<nat>, q: Seq<real>, t: real, n: int)
    requires
        t != 0real,
        0 <= n <= m.len(),
        q.len() == m.len(),
        forall|i: int| 0 <= i < m.len() ==> #[trigger] q[i] == (m[i] as real) / t,
    ensures
        real_sum(q, n) == (mass_sum(m, n) as real) / t,
    decreases n,
{
    if n > 0 {
        lemma_sum_of_parts(m, q, t, n - 1);
        lemma_quotients_add(mass_sum(m, n - 1) as real, m[n - 1] as real, t);
    } else {
        assert(0real / t == 0real) by (nonlinear_arith)
            requires
                t != 0real,
        ;
    }
}

proof fn lemma_sum_grows(m: Seq<nat>, k: int, n: int)
    requires
        0 <= k < n <= m.len(),
    ensures
        m[k] <= mass_sum(m, n),
    decreases n,
{
    if k < n - 1 {
        lemma_sum_grows(m, k, n - 1);
    }
}

proof fn lemma_sum_of_nothing(m: Seq<nat>, n: int)
    requires
        0 <= n <= m.len(),
        !weighs(m),
    ensures
        mass_sum(m, n) == 0,
    decreases n,
{
    if n > 0 {
        lemma_sum_of_nothing(m, n - 1);
        assert(m[n - 1] == 0);
    }
}

proof fn lemma_part(a: nat, b: nat, t: nat)
    requires
        t > 0,
        a <= t,
    ensures
        0real <= (a as real) / (t as real) <= 1real,
        ((a as real) / (t as real)) * (b as real) == ((b as real) / (t as real)) * (a as real),
{
    let x = a as real;
    let y = b as real;
    let w = t as real;
    assert(0real <= x / w <= 1real) by (nonlinear_arith)
        requires
            0real <= x <= w,
            w > 0real,
    ;
    lemma_quotient(x, w);
    lemma_quotient(y, w);
    let p = x / w;
    let q = y / w;
    assert(p * (q * w) == q * (p * w)) by (nonlinear_arith);
}

proof fn lemma_listed(m: Seq<nat>, n: int, c: Seq<(u64, Option<u64>)>, i: int)
    requires
        0 <= i < n <= m.len(),
        counts_to(m, n) == Ok::<Seq<(u64, Option<u64>)>, Error>(c),
    ensures
        c.len() == n,
        mass_value(m[i]) == Ok::<u64, Error>(c[i].0),
        mass_sum(m, m.len() as int) == 0 ==> c[i].1 is None,
        mass_sum(m, m.len() as int) > 0 ==> c[i].1 is Some && c[i].1 == nearest(
            (m[i] as real) / (mass_sum(m, m.len() as int) as real),
        ),
    decreases n,
{
    let before = counts_to(m, n - 1)->Ok_0;
    if n > 1 {
        lemma_listed(m, n - 1, before, if i < n - 1 {
            i
        } else {
            0
        });
    }
}

proof fn lemma_listed_length(m: Seq<nat>, n: int, c: Seq<(u64, Option<u64>)>)
    requires
        0 <= n <= m.len(),
        counts_to(m, n) == Ok::<Seq<(u64, Option<u64>)>, Error>(c),
    ensures
        c.len() == n,
{
    if n > 0 {
        lemma_listed(m, n, c, 0);
    }
}

/// The fraction of a category is its part of all the mass: the fractions are the doubles of
/// numbers from zero to one that stand to each other as the masses do, and add up to one.
pub proof fn fractions_are_parts_of_the_whole(m: Seq<nat>, r: CategoryResult)
    requires
        counts_to(m, m.len() as int) is Ok,
        holds_counts(r, counts_to(m, m.len() as int)->Ok_0),
    ensures
        fractions_hold(m, r.fractions@),
{
    let n = m.len() as int;
    let c = counts_to(m, n)->Ok_0;
    let t = mass_sum(m, n);
    lemma_listed_length(m, n, c);
    if !weighs(m) {
        lemma_sum_of_nothing(m, n);
        assert forall|i: int| 0 <= i < n implies (#[trigger] r.fractions@[i]) is None by {
            lemma_listed(m, n, c, i);
            assert(r.fractions@[i] == c[i].1);
        }
    } else {
        let k = choose|k: int| 0 <= k < m.len() && #[trigger] m[k] > 0;
        lemma_sum_grows(m, k, n);
        let q = Seq::new(m.len(), |i: int| (m[i] as real) / (t as real));
        assert forall|i: int| 0 <= i < q.len() implies 0real <= #[trigger] q[i] <= 1real by {
            lemma_sum_grows(m, i, n);
            lemma_part(m[i], m[i], t);
        }
        assert forall|i: int, j: int| 0 <= i < q.len() && 0 <= j < q.len() implies #[trigger] q[i]
            * (m[j] as real) == #[trigger] q[j] * (m[i] as real) by {
            lemma_sum_grows(m, i, n);
            lemma_part(m[i], m[j], t);
        }
        lemma_sum_of_parts(m, q, t as real, n);
        assert((t as real) / (t as real) == 1real) by (nonlinear_arith)
            requires
                t > 0,
        ;
        assert(parts_of(m, q));
        assert forall|i: int| 0 <= i < m.len() implies (#[trigger] r.fractions@[i]) is Some
            && r.fractions@[i] == nearest(q[i]) by {
            lemma_listed(m, n, c, i);
            assert(r.fractions@[i] == c[i].1);
        }
    }
}

/// No other numbers stand to each other as the masses do and add up to one.
pub proof fn parts_are_unique(m: Seq<nat>, p: Seq<real>, q: Seq<real>)
    requires
        weighs(m),
        parts_of(m, p),
        parts_of(m, q),
    ensures
        p == q,
{
    let k = choose|k: int| 0 <= k < m.len() && #[trigger] m[k] > 0;
    lemma_scaled_sum(m, p, k, p.len() as int);
    lemma_scaled_sum(m, q, k, q.len() as int);
    let s = mass_sum(m, m.len() as int) as real;
    let w = m[k] as real;
    assert(1real * w == w && p[k] * s == q[k] * s);
    lemma_sum_grows(m, k, m.len() as int);
    let a = p[k];
    let b = q[k];
    assert(a == b) by (nonlinear_arith)
        requires
            a * s == b * s,
            s > 0real,
    ;
    assert forall|i: int| 0 <= i < p.len() implies #[trigger] p[i] == q[i] by {
        let x = p[i];
        let y = q[i];
        assert(p[i] * (m[k] as real) == p[k] * (m[i] as real));
        assert(q[i] * (m[k] as real) == q[k] * (m[i] as real));
        assert(x == y) by (nonlinear_arith)
            requires
                x * w == y * w,
                w > 0real,
        ;
    }
    assert(p =~= q);
}

proof fn lemma_scaled_sum(m: Seq<nat>, q: Seq<real>, k: int, n: int)
    requires
        parts_of(m, q),
        0 <= k < m.len(),
        0 <= n <= m.len(),
    ensures
        real_sum(q, n) * (m[k] as real) == q[k] * (mass_sum(m, n) as real),
    decreases n,
{
    let w = m[k] as real;
    if n > 0 {
        lemma_scaled_sum(m, q, k, n - 1);
        let a = real_sum(q, n - 1);
        let b = q[n - 1];
        let c = q[k];
        let s = mass_sum(m, n - 1) as real;
        let x = m[n - 1] as real;
        assert(q[n - 1] * (m[k] as real) == q[k] * (m[n - 1] as real));
        assert((a + b) * w == c * (s + x)) by (nonlinear_arith)
            requires
                a * w == c * s,
                b * w == c * x,
        ;
    } else {
        let c = q[k];
        assert(0real * w == c * 0real) by (nonlinear_arith);
    }
}

/// Multiplying all masses by one factor leaves every fraction as it is.
pub proof fn fractions_do_not_depend_on_the_unit(
    m: Seq<nat>,
    other: Seq<nat>,
    factor: nat,
    a: Seq<Option<u64>>,
    b: Seq<Option<u64>>,
)
    requires
        factor > 0,
        other.len() == m.len(),
        forall|i: int| 0 <= i < m.len() ==> #[trigger] other[i] == factor * m[i],
        fractions_hold(m, a),
        fractions_hold(other, b),
    ensures
        a == b,
{
    if weighs(m) {
        let k = choose|k: int| 0 <= k < m.len() && #[trigger] m[k] > 0;
        let w = m[k] as int;
        let f = factor as int;
        assert(f * w > 0) by (nonlinear_arith)
            requires
                f > 0,
                w > 0,
        ;
        assert(other[k] > 0);
        let p = choose|q: Seq<real>| #[trigger]
            parts_of(m, q) && forall|i: int|
                0 <= i < m.len() ==> (#[trigger] a[i]) is Some && a[i] == nearest(q[i]);
        let q = choose|q: Seq<real>| #[trigger]
            parts_of(other, q) && forall|i: int|
                0 <= i < other.len() ==> (#[trigger] b[i]) is Some && b[i] == nearest(q[i]);
        assert forall|i: int, j: int| 0 <= i < p.len() && 0 <= j < p.len() implies #[trigger] p[i]
            * (other[j] as real) == #[trigger] p[j] * (other[i] as real) by {
            let x = p[i];
            let y = p[j];
            let u = m[j] as real;
            let v = m[i] as real;
            let g = factor as real;
            lemma_as_real(factor, m[j]);
            lemma_as_real(factor, m[i]);
            assert(x * u == y * v);
            assert(x * (g * u) == y * (g * v)) by (nonlinear_arith)
                requires
                    x * u == y * v,
            ;
        }
        assert(parts_of(other, p));
        parts_are_unique(other, p, q);
    } else {
        assert forall|k: int| 0 <= k < other.len() implies !(#[trigger] other[k] > 0) by {
            assert(m[k] == 0);
            assert(factor * 0 == 0);
        }
    }
    assert(a =~= b);
}

proof fn lemma_as_real(a: nat, b: nat)
    ensures
        (a * b) as real == (a as real) * (b as real),
{
    assert((a * b) as real == (a as real) * (b as real)) by (nonlinear_arith);
}

/// A covered value: the bits of the value and of the covered fraction.
pub type Covered = (u64, u64);

/// How much of the first `n` cells has a value.
pub open spec fn covered_with(given: Seq<Covered>, value: u64, n: int) -> real
    decreases n,
{
    if n <= 0 {
        0real
    } else {
        covered_with(given, value, n - 1) + if plain_zero(given[n - 1].0) == value {
            value_of(given[n - 1].1)
        } else {
            0real
        }
    }
}

/// Masses that counting cells one by one leads to, from nothing.
pub open spec fn counted_from(domain: Seq<u64>, steps: Seq<Seq<nat>>, given: Seq<Covered>) -> bool {
    &&& steps.len() == given.len() + 1
    &&& steps[0] == Seq::new(domain.len(), |i: int| 0nat)
    &&& forall|k: int|
        0 <= k < given.len() ==> counted(domain, steps[k], (#[trigger] given[k]).0, given[k].1)
            == Ok::<Seq<nat>, Error>(steps[k + 1])
}

/// A fraction weighs what its value is, in units of 2^-1074.
pub proof fn lemma_mass_unit(f: u64)
    requires
        coverage_bits(f),
    ensures
        size_of_bits(f) as real == value_of(f) * (pow2(1074) as real),
{
    lemma_pow2_pos(1074);
    lemma_quotient(units(f) as real, pow2(1074) as real);
}

/// Each category comes to what was covered with its value, whatever else was counted and in
/// whatever order.
pub proof fn a_category_holds_what_was_covered(
    domain: Seq<u64>,
    steps: Seq<Seq<nat>>,
    given: Seq<Covered>,
    n: int,
    i: int,
)
    requires
        rising(domain),
        counted_from(domain, steps, given),
        0 <= n <= given.len(),
        0 <= i < domain.len(),
    ensures
        steps[n].len() == domain.len(),
        steps[n][i] as real == covered_with(given, domain[i], n) * (pow2(1074) as real),
    decreases n,
{
    let unit = pow2(1074) as real;
    if n > 0 {
        a_category_holds_what_was_covered(domain, steps, given, n - 1, i);
        let (v, f) = given[n - 1];
        assert(counted(domain, steps[n - 1], v, f) == Ok::<Seq<nat>, Error>(steps[n - 1 + 1]));
        let at = domain.index_of(plain_zero(v));
        assert(domain.contains(plain_zero(v)));
        assert(0 <= at < domain.len() && domain[at] == plain_zero(v));
        if i != at {
            if i < at {
                assert(crate::categories::order_key(domain[i]) < crate::categories::order_key(
                    domain[at],
                ));
            } else {
                assert(crate::categories::order_key(domain[at]) < crate::categories::order_key(
                    domain[i],
                ));
            }
        } else {
            lemma_mass_unit(f);
            let a = covered_with(given, domain[i], n - 1);
            let b = value_of(f);
            assert((a + b) * unit == a * unit + b * unit) by (nonlinear_arith);
        }
    } else {
        assert(0real * unit == 0real) by (nonlinear_arith);
    }
}

/// A category is counted with the double of what was covered with its value.
pub proof fn a_count_is_what_was_covered(
    domain: Seq<u64>,
    steps: Seq<Seq<nat>>,
    given: Seq<Covered>,
    r: CategoryResult,
    i: int,
)
    requires
        rising(domain),
        counted_from(domain, steps, given),
        0 <= i < domain.len(),
        counts_to(steps[given.len() as int], domain.len() as int) is Ok,
        holds_counts(r, counts_to(steps[given.len() as int], domain.len() as int)->Ok_0),
    ensures
        Some(r.covered_cell_equivalents@[i]) == nearest(
            covered_with(given, domain[i], given.len() as int),
        ),
{
    let n = given.len() as int;
    a_category_holds_what_was_covered(domain, steps, given, n, i);
    let m = steps[n];
    let c = counts_to(m, domain.len() as int)->Ok_0;
    lemma_listed(m, domain.len() as int, c, i);
    lemma_pow2_pos(1074);
    lemma_undone(covered_with(given, domain[i], n), pow2(1074) as real);
    assert(r.covered_cell_equivalents@[i] == c[i].0);
}

/// The categories that were seen.
pub open spec fn seen_places(m: Seq<nat>, n: int) -> Set<int> {
    Set::new(|i: int| 0 <= i < n && m[i] > 0)
}

/// The variety is the number of categories that anything was counted in.
pub proof fn the_variety_counts_each_seen_category_once(m: Seq<nat>, n: int)
    requires
        0 <= n <= m.len(),
    ensures
        seen_places(m, n).finite(),
        seen_places(m, n).len() == seen(m, n),
    decreases n,
{
    if n > 0 {
        the_variety_counts_each_seen_category_once(m, n - 1);
        if m[n - 1] > 0 {
            assert(seen_places(m, n) =~= seen_places(m, n - 1).insert(n - 1));
        } else {
            assert(seen_places(m, n) =~= seen_places(m, n - 1));
        }
    } else {
        assert(seen_places(m, n) =~= Set::empty());
    }
}

/// Merged categories hold the masses of both, whichever takes the other in.
pub proof fn merging_adds_masses(a: Seq<nat>, b: Seq<nat>, i: int)
    requires
        a.len() == b.len(),
        0 <= i < a.len(),
    ensures
        both_masses(a, b) matches Ok(m) ==> m.len() == a.len() && m[i] == a[i] + b[i],
        both_masses(a, b) is Ok == both_masses(b, a) is Ok,
        both_masses(a, b) matches Ok(m) ==> both_masses(b, a) == Ok::<Seq<nat>, Error>(m),
{
    assert forall|k: int| 0 <= k < a.len() implies bit_length(b[k] + a[k]) == bit_length(
        #[trigger] a[k] + #[trigger] b[k],
    ) by {}
    if both_masses(a, b) is Err {
        let k = choose|k: int| 0 <= k < a.len() && #[trigger] bit_length(a[k] + b[k]) > MASS_BITS;
        assert(bit_length(b[k] + a[k]) > MASS_BITS);
    }
    if both_masses(b, a) is Err {
        let k = choose|k: int| 0 <= k < b.len() && #[trigger] bit_length(b[k] + a[k]) > MASS_BITS;
        assert(bit_length(a[k] + b[k]) > MASS_BITS);
    }
    if both_masses(a, b) is Ok {
        assert(both_masses(a, b)->Ok_0 =~= both_masses(b, a)->Ok_0);
    }
}

} // verus!
