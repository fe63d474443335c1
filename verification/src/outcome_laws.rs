//! What the categories of a reduction come to, and what bounds a reduction.
use vstd::prelude::*;

use crate::categories::{counts_to, leader, seen, the_leader_has_the_greatest_mass, CategoryResult};
use crate::category_laws::{
    fractions_are_parts_of_the_whole, fractions_hold, seen_places,
    the_variety_counts_each_seen_category_once,
};
use crate::moments::{central_refusal, Central};
use crate::rational::{denom_digits, numer_digits};
use crate::reducers::{categories_end, retained, transient, Options, Wanted};

verus! {

/// What a reduction comes to for categories: the fractions are the parts of all the mass, the
/// majority is the first value of the greatest mass, and the variety counts the values that were
/// seen.
pub proof fn categories_are_told_of_their_masses(
    domain: Seq<u64>,
    m: Seq<nat>,
    w: Wanted,
    categories: Option<CategoryResult>,
    majority: Option<Option<u64>>,
    variety: Option<usize>,
)
    requires
        categories_end(domain, Some(m), w, categories, majority, variety),
        counts_to(m, m.len() as int) is Ok,
        m.len() == domain.len(),
        m.len() <= usize::MAX,
    ensures
        categories is Some <==> w.categories,
        categories matches Some(c) ==> c.values@ == domain && fractions_hold(m, c.fractions@),
        majority is Some <==> w.majority,
        majority matches Some(found) ==> match found {
            Some(v) => exists|i: int|
                0 <= i < m.len() && #[trigger] domain[i] == v && m[i] > 0 && forall|k: int|
                    0 <= k < m.len() ==> #[trigger] m[k] <= m[i] && (k < i ==> m[k] < m[i]),
            None => forall|k: int| 0 <= k < m.len() ==> #[trigger] m[k] == 0,
        },
        variety is Some <==> w.variety,
        variety matches Some(n) ==> n == seen_places(m, m.len() as int).len(),
{
    let n = m.len() as int;
    if let Some(c) = categories {
        fractions_are_parts_of_the_whole(m, c);
    }
    the_variety_counts_each_seen_category_once(m, n);
    lemma_seen_bound(m, n);
    match leader(m, n) {
        Some(i) => {
            if n > 0 {
                the_leader_has_the_greatest_mass(m, n, 0);
                assert forall|k: int| 0 <= k < n implies #[trigger] m[k] <= m[i] && (k < i ==> m[k]
                    < m[i]) by {
                    the_leader_has_the_greatest_mass(m, n, k);
                }
                assert(domain[i] == domain[i]);
            }
        },
        None => {
            assert forall|k: int| 0 <= k < n implies #[trigger] m[k] == 0 by {
                the_leader_has_the_greatest_mass(m, n, k);
            }
        },
    }
}

proof fn lemma_seen_bound(m: Seq<nat>, n: int)
    requires
        0 <= n <= m.len(),
    ensures
        seen(m, n) <= n,
    decreases n,
{
    if n > 0 {
        lemma_seen_bound(m, n - 1);
    }
}

/// What a reduction may come to hold: so much for each category, each pair of moments and each kept
/// sample, and a fixed rest.
pub proof fn what_a_reduction_may_hold(o: Options, categories: int, samples: int)
    requires
        match o.category_values {
            Some(v) => categories == v@.len(),
            None => categories == 0,
        },
        samples == if o.wanted.median || o.wanted.quantiles || o.wanted.weighted_median
            || o.wanted.weighted_quantiles {
            o.quantile_limit as int
        } else {
            0
        },
    ensures
        retained(o) == 512 * categories + 24 * samples + 4096 + (if o.wanted.variance
            || o.wanted.stddev {
            16384int
        } else {
            0
        }) + (if o.wanted.weighted_variance || o.wanted.weighted_stddev {
            16384int
        } else {
            0
        }),
        transient(o.wanted) == 4096 + (if o.wanted.variance || o.wanted.stddev
            || o.wanted.weighted_variance || o.wanted.weighted_stddev {
            524288int
        } else {
            0
        }) + (if o.wanted.median || o.wanted.quantiles || o.wanted.weighted_median
            || o.wanted.weighted_quantiles {
            131072int
        } else {
            0
        }),
{
}

/// An exact state is kept just where neither its weight nor its second moment is negative and none
/// of its terms has more digits than it may.
pub proof fn an_exact_state_is_refused_only_for_sign_or_size(c: Central)
    ensures
        central_refusal(c) is None <==> c.weight >= 0real && c.m2 >= 0real && numer_digits(c.weight)
            <= 8192 && denom_digits(c.weight) <= 8192 && numer_digits(c.mean) <= 8192
            && denom_digits(c.mean) <= 8192 && numer_digits(c.m2) <= 8192 && denom_digits(c.m2)
            <= 8192,
{
}

} // verus!
