//! What the results of a reduction say of the cells that were taken in.
use vstd::arithmetic::power2::{lemma_pow2_adds, lemma_pow2_pos, pow2};
use vstd::prelude::*;

use crate::algebra::{lemma_nothing, lemma_product_sign};
use crate::categories::{counted, order_key, plain_zero, rising};
use crate::category_laws::{
    a_category_holds_what_was_covered, counted_from, covered_with, Covered,
};
use crate::dyadic::{field_of, lemma_powers, lemma_twice, magnitude_of, place_of};
use crate::error::Error;
use crate::moment_laws::{
    adds_up, an_empty_state_stands_for_nothing, faithful, lemma_positive_value, lemma_zero_value,
    one_more_value, sampling_adds_the_value, sampling_a_product_adds_the_value, sound, stands_for,
    state_of, Weighed,
};
use crate::moments::{
    above_zero, blank_float, deviation_of, normal, product_sampled, sampled, single, zero_bits,
    Central, Deviation, FloatState, MomentsView,
};
use crate::quantiles::{
    a_probability_is_reached, a_quantile_inverts_the_distribution, counts, first_at, in_order,
    mass_below, mass_of, mass_to, quantile_of, rank_missing, sample_ok, samples_ok, threshold_of,
    Sample,
};
use crate::rational::value_of;
use crate::reducers::{
    counting_weight, end_refusal, ends_with, keeps_sample, lemma_sorted_ok, mass_step, mode_fails,
    plain_step, sorts, weighted_step, with_cell, with_other, CellFloats, Held, MomentEnd, Options, ReducerResult, Reducers, HALF,
};
use crate::skv_header::finite_bits;

verus! {

/// A cell as it is handed to a reducer, with what floating arithmetic gave for it.
pub ghost struct Given {
    pub value: u64,
    pub fraction: u64,
    pub weight: Option<u64>,
    pub floats: CellFloats,
}

/// A reducer that has taken nothing in.
pub open spec fn holds_nothing(o: Options, domain: Seq<u64>, h: Held) -> bool {
    &&& h.samples.len() == 0
    &&& h.moments matches Some(v) ==> v == (MomentsView { float: blank_float(), exact: None })
    &&& h.weighted_moments matches Some(v) ==> v == (MomentsView {
        float: blank_float(),
        exact: None,
    })
    &&& h.masses matches Some(m) ==> m == Seq::new(domain.len(), |i: int| 0nat)
}

/// A reducer takes a cell in, and holds `next` after it.
#[verifier::opaque]
pub open spec fn accepts(o: Options, domain: Seq<u64>, h: Held, c: Given, next: Held) -> bool {
    with_cell(o, domain, h, c.value, c.fraction, c.weight, c.floats) == Ok::<Held, Error>(next)
}

/// What a reducer holds before and after each of a list of cells, all of which it accepts.
pub open spec fn took(o: Options, domain: Seq<u64>, steps: Seq<Held>, given: Seq<Given>) -> bool {
    &&& steps.len() == given.len() + 1
    &&& holds_nothing(o, domain, steps[0])
    &&& forall|k: int|
        0 <= k < given.len() ==> accepts(o, domain, steps[k], #[trigger] given[k], steps[k + 1])
}

/// The weight of a cell, where it is a number above zero.
pub open spec fn weight_value(weight: Option<u64>) -> real {
    match weight {
        Some(w) => if finite_bits(w) && above_zero(w) {
            value_of(w)
        } else {
            0real
        },
        None => 0real,
    }
}

/// What a given cell weighs: its fraction, times its weight where weights are asked for.
pub open spec fn cell_mass(c: Given, weighted: bool) -> real {
    if weighted {
        value_of(c.fraction) * weight_value(c.weight)
    } else {
        value_of(c.fraction)
    }
}

/// What the first `n` given cells weigh whose value stands at `key` or below.
pub open spec fn given_below(given: Seq<Given>, weighted: bool, key: int, n: int) -> real
    decreases n,
{
    if n <= 0 {
        0real
    } else {
        given_below(given, weighted, key, n - 1) + if order_key(plain_zero(given[n - 1].value))
            <= key {
            cell_mass(given[n - 1], weighted)
        } else {
            0real
        }
    }
}

/// What the first `n` given cells weigh.
pub open spec fn given_mass(given: Seq<Given>, weighted: bool, n: int) -> real
    decreases n,
{
    if n <= 0 {
        0real
    } else {
        given_mass(given, weighted, n - 1) + cell_mass(given[n - 1], weighted)
    }
}

/// A mode has its samples.
pub open spec fn samples_for(o: Options, weighted: bool) -> bool {
    if weighted {
        o.wanted.weighted_median || o.wanted.weighted_quantiles
    } else {
        o.wanted.median || o.wanted.quantiles
    }
}

/// What one accepted cell does, part by part.
proof fn lemma_step(o: Options, domain: Seq<u64>, steps: Seq<Held>, given: Seq<Given>, k: int)
    requires
        took(o, domain, steps, given),
        0 <= k < given.len(),
    ensures
        ({
            let c = given[k];
            let a = steps[k];
            let b = steps[k + 1];
            let w = counting_weight(c.weight);
            &&& finite_bits(c.value)
            &&& 0 < c.fraction <= 0x3ff0_0000_0000_0000
            &&& plain_step(a.moments, c.value, c.fraction, c.floats.plain) == Ok::<
                Option<MomentsView>,
                Error,
            >(b.moments)
            &&& mass_step(domain, a.masses, c.value, c.fraction) == Ok::<Option<Seq<nat>>, Error>(
                b.masses,
            )
            &&& weighted_step(a.weighted_moments, c.value, c.fraction, w, c.floats) == Ok::<
                Option<MomentsView>,
                Error,
            >(b.weighted_moments)
            &&& b.samples == (if keeps_sample(o.wanted, w) {
                a.samples.push(b.samples.last())
            } else {
                a.samples
            })
            &&& keeps_sample(o.wanted, w) ==> {
                let last = b.samples.last();
                &&& last.value == plain_zero(c.value)
                &&& value_of(last.coverage) == value_of(c.fraction)
                &&& sample_ok(last)
                &&& last.weight == w
            }
        }),
{
    let c = given[k];
    assert(accepts(o, domain, steps[k], c, steps[k + 1]));
    reveal(accepts);
    let b = steps[k + 1];
    if keeps_sample(o.wanted, counting_weight(c.weight)) {
        assert(b.samples.drop_last() =~= steps[k].samples);
        assert(b.samples =~= steps[k].samples.push(b.samples.last()));
    }
}

proof fn lemma_weightless(c: Given)
    ensures
        weight_value(c.weight) == 0real ==> cell_mass(c, true) == 0real,
{
    let f = value_of(c.fraction);
    assert(f * 0real == 0real) by (nonlinear_arith);
}

/// The samples held after a list of cells are those cells, each with its own fraction and weight:
/// at or below any key they weigh what the cells weigh.
pub proof fn the_samples_weigh_what_was_given(
    o: Options,
    domain: Seq<u64>,
    steps: Seq<Held>,
    given: Seq<Given>,
    weighted: bool,
    key: int,
    n: int,
)
    requires
        took(o, domain, steps, given),
        samples_for(o, weighted),
        0 <= n <= given.len(),
    ensures
        ({
            let s = steps[n].samples;
            &&& samples_ok(s)
            &&& mass_below(s, weighted, key, s.len() as int) == given_below(given, weighted, key, n)
            &&& mass_to(s, weighted, s.len() as int) == given_mass(given, weighted, n)
        }),
    decreases n,
{
    if n > 0 {
        the_samples_weigh_what_was_given(o, domain, steps, given, weighted, key, n - 1);
        let c = given[n - 1];
        let a = steps[n - 1].samples;
        let b = steps[n].samples;
        lemma_step(o, domain, steps, given, n - 1);
        lemma_weightless(c);
        if b.len() > a.len() {
            let last = b[a.len() as int];
            lemma_prefix_mass(a, b, weighted, key, a.len() as int);
            assert(last.value == plain_zero(c.value));
            assert(mass_of(last, weighted) == cell_mass(c, weighted));
            assert forall|i: int| 0 <= i < b.len() implies sample_ok(
                #[trigger] b[i],
            ) by {
                if i < a.len() {
                    assert(b[i] == a[i]);
                    assert(sample_ok(a[i]));
                }
            }
        } else {
            assert(a == b);
            assert(weighted);
            assert(cell_mass(c, weighted) == 0real);
        }
    }
}

proof fn lemma_prefix_mass(a: Seq<Sample>, b: Seq<Sample>, weighted: bool, key: int, n: int)
    requires
        0 <= n <= a.len() <= b.len(),
        forall|i: int| 0 <= i < a.len() ==> #[trigger] a[i] == b[i],
    ensures
        mass_below(a, weighted, key, n) == mass_below(b, weighted, key, n),
        mass_to(a, weighted, n) == mass_to(b, weighted, n),
    decreases n,
{
    if n > 0 {
        lemma_prefix_mass(a, b, weighted, key, n - 1);
        assert(a[n - 1] == b[n - 1]);
    }
}

/// What a sample adds to the mass at or below a key.
spec fn share(s: Sample, weighted: bool, key: int) -> real {
    if order_key(s.value) <= key {
        mass_of(s, weighted)
    } else {
        0real
    }
}

proof fn lemma_removed(b: Seq<Sample>, j: int, weighted: bool, key: int, n: int)
    requires
        0 <= j < n <= b.len(),
    ensures
        mass_below(b, weighted, key, n) == mass_below(b.remove(j), weighted, key, n - 1) + share(
            b[j],
            weighted,
            key,
        ),
    decreases n,
{
    let rest = b.remove(j);
    if n - 1 > j {
        lemma_removed(b, j, weighted, key, n - 1);
        assert(rest[n - 2] == b[n - 1]);
    } else {
        assert forall|i: int| 0 <= i < j implies #[trigger] b.take(j)[i] == rest[i] by {}
        lemma_prefix_mass(b.take(j), rest, weighted, key, j);
        lemma_prefix_mass(b.take(j), b, weighted, key, j);
    }
}

/// The mass at or below a key does not depend on the order of samples.
pub proof fn the_order_of_samples_does_not_matter(
    a: Seq<Sample>,
    b: Seq<Sample>,
    weighted: bool,
    key: int,
)
    requires
        a.to_multiset() == b.to_multiset(),
    ensures
        a.len() == b.len(),
        mass_below(a, weighted, key, a.len() as int) == mass_below(
            b,
            weighted,
            key,
            b.len() as int,
        ),
    decreases a.len(),
{
    a.to_multiset_ensures();
    b.to_multiset_ensures();
    if a.len() > 0 {
        let n = a.len() - 1;
        let last = a[n];
        assert(a.contains(last));
        assert(b.to_multiset().count(last) > 0);
        assert(b.contains(last));
        let j = b.index_of(last);
        assert(b[j] == last);
        lemma_removed(a, n, weighted, key, a.len() as int);
        lemma_removed(b, j, weighted, key, b.len() as int);
        the_order_of_samples_does_not_matter(a.remove(n), b.remove(j), weighted, key);
    }
}

/// All samples stand at or below the greatest key.
proof fn lemma_all_below(s: Seq<Sample>, weighted: bool, n: int)
    requires
        0 <= n <= s.len(),
    ensures
        mass_to(s, weighted, n) == mass_below(s, weighted, 0xffff_ffff_ffff_ffff, n),
    decreases n,
{
    if n > 0 {
        lemma_all_below(s, weighted, n - 1);
    }
}

proof fn lemma_none_below(s: Seq<Sample>, weighted: bool, key: int, i: int, n: int)
    requires
        0 <= n <= s.len(),
        0 <= i < s.len(),
        in_order(s),
        key < order_key(s[i].value),
        forall|k: int| 0 <= k < i ==> !counts(#[trigger] s[k], weighted),
    ensures
        mass_below(s, weighted, key, n) == 0real,
    decreases n,
{
    if n > 0 {
        lemma_none_below(s, weighted, key, i, n - 1);
        if n - 1 < i {
            assert(!counts(s[n - 1], weighted));
        } else if n - 1 > i {
            assert(order_key(s[i].value) <= order_key(s[n - 1].value));
        }
    }
}

proof fn lemma_first_of_all(s: Seq<Sample>, weighted: bool, t: real, n: int)
    requires
        0 <= n <= s.len(),
        samples_ok(s),
        t <= 0real,
    ensures
        match first_at(s, weighted, t, n) {
            Some(i) => 0 <= i < n && forall|k: int| 0 <= k < i ==> !counts(#[trigger] s[k], weighted),
            None => forall|k: int| 0 <= k < n ==> !counts(#[trigger] s[k], weighted),
        },
    decreases n,
{
    if n > 0 {
        lemma_first_of_all(s, weighted, t, n - 1);
        lemma_mass_not_negative(s, weighted, n);
    }
}

proof fn lemma_mass_not_negative(s: Seq<Sample>, weighted: bool, n: int)
    requires
        0 <= n <= s.len(),
        samples_ok(s),
    ensures
        mass_to(s, weighted, n) >= 0real,
    decreases n,
{
    if n > 0 {
        lemma_mass_not_negative(s, weighted, n - 1);
        let c = s[n - 1];
        assert(sample_ok(c));
        lemma_positive_value(c.coverage);
        if counts(c, weighted) && weighted {
            lemma_positive_value(c.weight->0);
            lemma_product_sign(value_of(c.coverage), value_of(c.weight->0));
        }
    }
}

/// A value inverts the distribution of given cells at a probability: the cells up to it weigh that
/// part of all that is given, and those up to any key below it weigh less, or nothing.
pub open spec fn inverts(given: Seq<Given>, weighted: bool, p: u64, v: u64) -> bool {
    let n = given.len() as int;
    let t = value_of(p) * given_mass(given, weighted, n);
    &&& given_below(given, weighted, order_key(v), n) >= t
    &&& forall|key: int|
        key < order_key(v) ==> #[trigger] given_below(given, weighted, key, n) < t || given_below(
            given,
            weighted,
            key,
            n,
        ) == 0real
}

proof fn lemma_inverts(
    o: Options,
    domain: Seq<u64>,
    steps: Seq<Held>,
    given: Seq<Given>,
    sorted: Seq<Sample>,
    weighted: bool,
    p: u64,
    v: u64,
)
    requires
        took(o, domain, steps, given),
        samples_for(o, weighted),
        sorts(steps[given.len() as int].samples, sorted),
        quantile_of(sorted, weighted, p) == Some(v),
    ensures
        inverts(given, weighted, p, v),
        given_mass(given, weighted, given.len() as int) > 0real,
{
    let n = given.len() as int;
    let s = steps[n].samples;
    let top = 0xffff_ffff_ffff_ffffint;
    the_samples_weigh_what_was_given(o, domain, steps, given, weighted, top, n);
    lemma_sorted_ok(s, sorted);
    the_order_of_samples_does_not_matter(s, sorted, weighted, top);
    lemma_all_below(s, weighted, s.len() as int);
    lemma_all_below(sorted, weighted, sorted.len() as int);
    lemma_mass_not_negative(sorted, weighted, sorted.len() as int);
    let t = threshold_of(sorted, weighted, p);
    assert(t == value_of(p) * given_mass(given, weighted, n));
    let k = sorted.len() as int;
    let i = first_at(sorted, weighted, t, k)->0;
    the_samples_weigh_what_was_given(o, domain, steps, given, weighted, order_key(v), n);
    the_order_of_samples_does_not_matter(s, sorted, weighted, order_key(v));
    if t > 0real {
        a_quantile_inverts_the_distribution(sorted, weighted, p, v, 0);
    } else {
        lemma_first_of_all(sorted, weighted, t, k);
        lemma_below_not_negative(sorted, weighted, order_key(v), k);
    }
    assert forall|key: int| key < order_key(v) implies #[trigger] given_below(
        given,
        weighted,
        key,
        n,
    ) < t || given_below(given, weighted, key, n) == 0real by {
        the_samples_weigh_what_was_given(o, domain, steps, given, weighted, key, n);
        the_order_of_samples_does_not_matter(s, sorted, weighted, key);
        if t > 0real {
            a_quantile_inverts_the_distribution(sorted, weighted, p, v, key);
        } else {
            lemma_none_below(sorted, weighted, key, i, k);
        }
    }
}

proof fn lemma_below_not_negative(s: Seq<Sample>, weighted: bool, key: int, n: int)
    requires
        0 <= n <= s.len(),
        samples_ok(s),
    ensures
        mass_below(s, weighted, key, n) >= 0real,
    decreases n,
{
    if n > 0 {
        lemma_below_not_negative(s, weighted, key, n - 1);
        let c = s[n - 1];
        assert(sample_ok(c));
        lemma_positive_value(c.coverage);
        if counts(c, weighted) && weighted {
            lemma_positive_value(c.weight->0);
            lemma_product_sign(value_of(c.coverage), value_of(c.weight->0));
        }
    }
}

proof fn lemma_half()
    ensures
        value_of(HALF) == 1real / 2real,
        finite_bits(HALF),
{
    assert(field_of(HALF) == 1022 && magnitude_of(HALF) == 0x10_0000_0000_0000 && place_of(HALF)
        == 1021);
    lemma_powers();
    lemma_pow2_adds(52, 1021);
    lemma_twice(1073);
    lemma_pow2_pos(1073);
    let a = pow2(1073) as real;
    let b = pow2(1074) as real;
    assert(b == 2real * a);
    assert(a / b == 1real / 2real) by (nonlinear_arith)
        requires
            b == 2real * a,
            a > 0real,
    ;
}

/// A median of given cells: the cells up to it weigh half of all that is given or more, and those
/// below it less than half.
pub open spec fn halves(given: Seq<Given>, weighted: bool, v: u64) -> bool {
    let n = given.len() as int;
    let all = given_mass(given, weighted, n);
    &&& 2real * given_below(given, weighted, order_key(v), n) >= all
    &&& forall|key: int|
        key < order_key(v) ==> 2real * #[trigger] given_below(given, weighted, key, n) < all
}

/// The median that a reduction comes to halves what the cells weigh that were given: their covered
/// fractions, times their weights in the weighted mode. It is there wherever anything weighs.
pub proof fn the_median_halves_what_was_given(
    r: Reducers,
    steps: Seq<Held>,
    given: Seq<Given>,
    sorted: Seq<Sample>,
    plain: MomentEnd,
    weighted_end: MomentEnd,
    out: ReducerResult,
    weighted: bool,
)
    requires
        took(r.options, r.domain(), steps, given),
        r.held() == steps[given.len() as int],
        sorts(r.samples@, sorted),
        end_refusal(r, sorted, plain, weighted_end) is None,
        ends_with(r, sorted, plain, weighted_end, out),
    ensures
        ({
            let median = if weighted {
                out.weighted_median
            } else {
                out.median
            };
            let wanted = if weighted {
                r.options.wanted.weighted_median
            } else {
                r.options.wanted.median
            };
            &&& median is Some <==> wanted
            &&& median matches Some(found) ==> match found {
                Some(v) => halves(given, weighted, v),
                None => given_mass(given, weighted, given.len() as int) == 0real,
            }
        }),
{
    let o = r.options;
    let wanted = if weighted {
        o.wanted.weighted_median
    } else {
        o.wanted.median
    };
    let n = given.len() as int;
    if wanted {
        lemma_half();
        let found = quantile_of(sorted, weighted, HALF);
        let top = 0xffff_ffff_ffff_ffffint;
        let s = steps[n].samples;
        assert(s == r.samples@);
        match found {
            Some(v) => {
                lemma_inverts(o, r.domain(), steps, given, sorted, weighted, HALF, v);
                let all = given_mass(given, weighted, n);
                let t = value_of(HALF) * all;
                assert(2real * t == all) by (nonlinear_arith)
                    requires
                        t == (1real / 2real) * all,
                ;
                assert forall|key: int| key < order_key(v) implies 2real * #[trigger] given_below(
                    given,
                    weighted,
                    key,
                    n,
                ) < all by {
                    let b = given_below(given, weighted, key, n);
                    assert(b < t || b == 0real);
                }
            },
            None => {
                the_samples_weigh_what_was_given(o, r.domain(), steps, given, weighted, top, n);
                the_order_of_samples_does_not_matter(s, sorted, weighted, top);
                lemma_all_below(s, weighted, s.len() as int);
                lemma_all_below(sorted, weighted, sorted.len() as int);
                if mass_to(sorted, weighted, sorted.len() as int) != 0real {
                    lemma_sorted_ok(s, sorted);
                    a_probability_is_reached(sorted, weighted, HALF);
                }
            },
        }
    }
}

/// Each quantile that a reduction comes to inverts the distribution of the cells that were given,
/// at its own probability.
pub proof fn a_quantile_inverts_what_was_given(
    r: Reducers,
    steps: Seq<Held>,
    given: Seq<Given>,
    sorted: Seq<Sample>,
    plain: MomentEnd,
    weighted_end: MomentEnd,
    out: ReducerResult,
    weighted: bool,
    i: int,
)
    requires
        took(r.options, r.domain(), steps, given),
        r.held() == steps[given.len() as int],
        sorts(r.samples@, sorted),
        end_refusal(r, sorted, plain, weighted_end) is None,
        ends_with(r, sorted, plain, weighted_end, out),
        r.options.quantiles is Some,
        0 <= i < r.options.quantiles->0@.len(),
    ensures
        ({
            let found = if weighted {
                out.weighted_quantiles
            } else {
                out.quantiles
            };
            let wanted = if weighted {
                r.options.wanted.weighted_quantiles
            } else {
                r.options.wanted.quantiles
            };
            let ps = r.options.quantiles->0@;
            &&& found is Some <==> wanted
            &&& found matches Some(q) ==> {
                &&& q.probabilities@ == ps
                &&& q.values@.len() == ps.len()
                &&& match q.values@[i] {
                    Some(v) => inverts(given, weighted, ps[i], v),
                    None => given_mass(given, weighted, given.len() as int) == 0real,
                }
            }
        }),
{
    let o = r.options;
    let n = given.len() as int;
    let wanted = if weighted {
        o.wanted.weighted_quantiles
    } else {
        o.wanted.quantiles
    };
    if wanted {
        let ps = o.quantiles->0@;
        let found = quantile_of(sorted, weighted, ps[i]);
        let s = steps[n].samples;
        assert(s == r.samples@);
        match found {
            Some(v) => {
                lemma_inverts(o, r.domain(), steps, given, sorted, weighted, ps[i], v);
            },
            None => {
                let top = 0xffff_ffff_ffff_ffffint;
                the_samples_weigh_what_was_given(o, r.domain(), steps, given, weighted, top, n);
                the_order_of_samples_does_not_matter(s, sorted, weighted, top);
                lemma_all_below(s, weighted, s.len() as int);
                lemma_all_below(sorted, weighted, sorted.len() as int);
                if mass_to(sorted, weighted, sorted.len() as int) != 0real {
                    assert(rank_missing(sorted, weighted, ps));
                    assert(mode_fails(o, sorted, weighted));
                }
            },
        }
    }
}

/// The values and fractions of given cells.
pub open spec fn covered_cells(given: Seq<Given>) -> Seq<Covered> {
    Seq::new(given.len(), |i: int| (given[i].value, given[i].fraction))
}

/// The category masses held after a list of cells are what the cells cover with each value.
pub proof fn the_masses_are_what_was_given(
    o: Options,
    domain: Seq<u64>,
    steps: Seq<Held>,
    given: Seq<Given>,
    i: int,
)
    requires
        took(o, domain, steps, given),
        rising(domain),
        steps[0].masses is Some,
        0 <= i < domain.len(),
    ensures
        steps[given.len() as int].masses matches Some(m) && m.len() == domain.len() && m[i] as real
            == covered_with(covered_cells(given), domain[i], given.len() as int) * (pow2(
            1074,
        ) as real),
{
    let n = given.len() as int;
    lemma_masses_stay(o, domain, steps, given, n);
    let m = Seq::new(steps.len(), |k: int| steps[k].masses->0);
    let cells = covered_cells(given);
    assert forall|k: int| 0 <= k < cells.len() implies counted(
        domain,
        m[k],
        (#[trigger] cells[k]).0,
        cells[k].1,
    ) == Ok::<Seq<nat>, Error>(m[k + 1]) by {
        lemma_masses_stay(o, domain, steps, given, k);
        lemma_masses_stay(o, domain, steps, given, k + 1);
        lemma_step(o, domain, steps, given, k);
    }
    assert(counted_from(domain, m, cells));
    a_category_holds_what_was_covered(domain, m, cells, n, i);
}

proof fn lemma_masses_stay(
    o: Options,
    domain: Seq<u64>,
    steps: Seq<Held>,
    given: Seq<Given>,
    n: int,
)
    requires
        took(o, domain, steps, given),
        steps[0].masses is Some,
        0 <= n <= given.len(),
    ensures
        steps[n].masses is Some,
    decreases n,
{
    if n > 0 {
        lemma_masses_stay(o, domain, steps, given, n - 1);
        let c = given[n - 1];
        lemma_step(o, domain, steps, given, n - 1);
    }
}

/// The given cells, each with what it weighs.
pub open spec fn weighed(given: Seq<Given>, weighted: bool) -> Seq<Weighed> {
    Seq::new(
        given.len(),
        |i: int| Weighed { value: value_of(given[i].value), weight: cell_mass(given[i], weighted) },
    )
}

/// What floating arithmetic gave for each cell stands for it: each merge for both states together,
/// and each product for the product.
pub open spec fn floats_are_faithful(steps: Seq<Held>, given: Seq<Given>, weighted: bool) -> bool {
    forall|k: int|
        0 <= k < given.len() ==> {
            let c = #[trigger] given[k];
            let one = single(value_of(c.value), cell_mass(c, weighted));
            if weighted {
                &&& steps[k].weighted_moments matches Some(v) ==> faithful(
                    c.floats.weighted,
                    state_of(v),
                    one,
                )
                &&& finite_bits(c.floats.effective) && !zero_bits(c.floats.effective) ==> value_of(
                    c.floats.effective,
                ) == cell_mass(c, true)
            } else {
                steps[k].moments matches Some(v) ==> faithful(c.floats.plain, state_of(v), one)
            }
        }
}

/// The moments of a mode.
pub open spec fn moments_for(h: Held, weighted: bool) -> Option<MomentsView> {
    if weighted {
        h.weighted_moments
    } else {
        h.moments
    }
}

/// One accepted cell adds its value to the moments of a mode.
#[verifier::rlimit(40)]
proof fn lemma_moments_step(a: Held, b: Held, c: Given, weighted: bool, v: MomentsView)
    requires
        moments_for(a, weighted) == Some(v),
        sound(state_of(v)),
        finite_bits(c.value),
        0 < c.fraction <= 0x3ff0_0000_0000_0000,
        !weighted ==> plain_step(a.moments, c.value, c.fraction, c.floats.plain) == Ok::<
            Option<MomentsView>,
            Error,
        >(b.moments),
        weighted ==> weighted_step(
            a.weighted_moments,
            c.value,
            c.fraction,
            counting_weight(c.weight),
            c.floats,
        ) == Ok::<Option<MomentsView>, Error>(b.weighted_moments),
        faithful(
            if weighted {
                c.floats.weighted
            } else {
                c.floats.plain
            },
            state_of(v),
            single(value_of(c.value), cell_mass(c, weighted)),
        ),
        weighted && finite_bits(c.floats.effective) && !zero_bits(c.floats.effective) ==> value_of(
            c.floats.effective,
        ) == cell_mass(c, true),
    ensures
        moments_for(b, weighted) matches Some(next) && sound(state_of(next)) && adds_up(
            state_of(next),
            state_of(v),
            single(value_of(c.value), cell_mass(c, weighted)),
        ),
{
    if !weighted {
        match sampled(v, c.value, c.fraction, c.floats.plain) {
            Ok(next) => {
                sampling_adds_the_value(v, c.value, c.fraction, c.floats.plain, next);
            },
            Err(_) => {},
        }
    } else {
        match counting_weight(c.weight) {
            Some(w) => {
                if zero_bits(w) {
                    lemma_zero_value(w);
                }
                let e = c.floats.effective;
                match product_sampled(v, c.value, c.fraction, w, e, c.floats.weighted) {
                    Ok(next) => {
                        sampling_a_product_adds_the_value(
                            v,
                            c.value,
                            c.fraction,
                            w,
                            e,
                            c.floats.weighted,
                            next,
                        );
                    },
                    Err(_) => {},
                }
            },
            None => {
                lemma_weightless(c);
                lemma_adds_no_weight(state_of(v), value_of(c.value));
            },
        }
    }
}

/// The moments held after a list of cells are those of the values of the cells, each weighed with
/// its covered fraction, times its weight in the weighted mode.
pub proof fn the_moments_are_those_of_what_was_given(
    o: Options,
    domain: Seq<u64>,
    steps: Seq<Held>,
    given: Seq<Given>,
    weighted: bool,
    n: int,
)
    requires
        took(o, domain, steps, given),
        floats_are_faithful(steps, given, weighted),
        moments_for(steps[0], weighted) is Some,
        0 <= n <= given.len(),
    ensures
        moments_for(steps[n], weighted) matches Some(v) && sound(state_of(v)) && stands_for(
            state_of(v),
            weighed(given, weighted),
            n,
        ),
    decreases n,
{
    let s = weighed(given, weighted);
    if n > 0 {
        the_moments_are_those_of_what_was_given(o, domain, steps, given, weighted, n - 1);
        let c = given[n - 1];
        let v = moments_for(steps[n - 1], weighted)->0;
        lemma_step(o, domain, steps, given, n - 1);
        let next = moments_for(steps[n], weighted)->0;
        assert(s[n - 1].value == value_of(c.value) && s[n - 1].weight == cell_mass(c, weighted));
        lemma_moments_step(steps[n - 1], steps[n], c, weighted, v);
        one_more_value(state_of(v), state_of(next), s, n - 1);
    } else {
        lemma_zero_value(0);
        an_empty_state_stands_for_nothing(s);
    }
}

proof fn lemma_adds_no_weight(a: Central, value: real)
    ensures
        adds_up(a, a, single(value, 0real)),
{
    lemma_nothing(value);
    lemma_nothing(value * value);
}

/// Merged reductions hold the cells of both: at or below any key their samples weigh what both
/// weigh, and so do their categories.
pub proof fn merging_adds_what_was_given(
    o: Options,
    a: Held,
    b: Held,
    plain: Option<FloatState>,
    weighted_float: Option<FloatState>,
    h: Held,
    weighted: bool,
    key: int,
)
    requires
        with_other(o, a, b, plain, weighted_float) == Ok::<Held, Error>(h),
    ensures
        mass_below(h.samples, weighted, key, h.samples.len() as int) == mass_below(
            a.samples,
            weighted,
            key,
            a.samples.len() as int,
        ) + mass_below(b.samples, weighted, key, b.samples.len() as int),
        h.samples.len() == a.samples.len() + b.samples.len(),
        match (a.masses, b.masses) {
            (Some(x), Some(y)) => h.masses matches Some(m) && m.len() == x.len() && forall|i: int|
                0 <= i < x.len() ==> #[trigger] m[i] == x[i] + y[i],
            _ => h.masses == a.masses,
        },
{
    lemma_joined_mass(a.samples, b.samples, weighted, key, b.samples.len() as int);
    assert(a.samples + b.samples.take(b.samples.len() as int) =~= a.samples + b.samples);
}

proof fn lemma_joined_mass(a: Seq<Sample>, b: Seq<Sample>, weighted: bool, key: int, n: int)
    requires
        0 <= n <= b.len(),
    ensures
        mass_below(a + b, weighted, key, a.len() + n) == mass_below(
            a,
            weighted,
            key,
            a.len() as int,
        ) + mass_below(b, weighted, key, n),
    decreases n,
{
    if n > 0 {
        lemma_joined_mass(a, b, weighted, key, n - 1);
        assert((a + b)[a.len() + n - 1] == b[n - 1]);
    } else {
        lemma_prefix_mass(a, a + b, weighted, key, a.len() as int);
    }
}

/// Each moment that a reduction comes to is that of its own state: the variance in floating state
/// is the quotient that was computed for it, the plain one for the plain state and the weighted one
/// for the weighted state, and each is there where it is asked for.
pub proof fn each_moment_is_told_of_its_own_state(
    r: Reducers,
    sorted: Seq<Sample>,
    plain: MomentEnd,
    weighted: MomentEnd,
    out: ReducerResult,
)
    requires
        r.wf(),
        ends_with(r, sorted, plain, weighted, out),
    ensures
        out.variance is Some <==> r.options.wanted.variance,
        out.stddev is Some <==> r.options.wanted.stddev,
        out.weighted_variance is Some <==> r.options.wanted.weighted_variance,
        out.weighted_stddev is Some <==> r.options.wanted.weighted_stddev,
        r.held().moments matches Some(v) ==> told(v, plain, out.variance, out.stddev),
        r.held().weighted_moments matches Some(v) ==> told(
            v,
            weighted,
            out.weighted_variance,
            out.weighted_stddev,
        ),
{
}

/// What is told of moments in floating state: nothing where nothing was weighed, else the computed
/// quotient and its root.
pub open spec fn told(
    v: MomentsView,
    end: MomentEnd,
    variance: Option<Option<u64>>,
    stddev: Option<Option<u64>>,
) -> bool {
    v.exact is None ==> if zero_bits(v.float.scale) {
        &&& variance matches Some(found) ==> found is None
        &&& stddev matches Some(found) ==> found is None
    } else {
        &&& variance matches Some(found) ==> found == Some(end.float.variance)
        &&& stddev matches Some(found) ==> {
            &&& zero_bits(end.float.m2) ==> found == Some(0u64)
            &&& !zero_bits(end.float.m2) && normal(end.float.variance) ==> found
                == Some(end.float.root)
            &&& !zero_bits(end.float.m2) && !normal(end.float.variance) ==> (deviation_of(
                state_of(v),
            ) matches Ok(Deviation::Scaled { .. }) ==> found == Some(end.product))
        }
    }
}

} // verus!
