//! Exact weighted quantiles by the inverted distribution function.
use num_rational::BigRational;
use vstd::prelude::*;

use crate::algebra::lemma_product_sign;
use crate::cancel::{check_cancel, Cancel};
use crate::categories::{key_of, order_key};
use crate::error::Error;
use crate::moments::above_zero;
use crate::rational::{amount, at_least, exact, is_nothing, plus, times, value_of, whole};
use crate::skv_header::finite_bits;

verus! {

/// A covered value: the bits of the value, of the covered fraction, and of its weight, if it has
/// one that counts.
#[derive(Clone, Copy, Debug, PartialEq, Eq)]
pub struct Sample {
    pub value: u64,
    pub coverage: u64,
    pub weight: Option<u64>,
}

/// Finite numbers, and a positive coverage.
pub open spec fn sample_ok(s: Sample) -> bool {
    &&& finite_bits(s.coverage)
    &&& above_zero(s.coverage)
    &&& s.weight matches Some(w) ==> finite_bits(w) && w <= 0x8000_0000_0000_0000
}

pub open spec fn samples_ok(samples: Seq<Sample>) -> bool {
    forall|i: int| 0 <= i < samples.len() ==> sample_ok(#[trigger] samples[i])
}

/// A sample counts: always, or with a positive weight where weights are asked for.
pub open spec fn counts(s: Sample, weighted: bool) -> bool {
    weighted ==> (s.weight matches Some(w) && above_zero(w))
}

/// What a sample weighs.
pub open spec fn mass_of(s: Sample, weighted: bool) -> real {
    if !counts(s, weighted) {
        0real
    } else if weighted {
        value_of(s.coverage) * value_of(s.weight->0)
    } else {
        value_of(s.coverage)
    }
}

/// What the first `n` samples weigh.
pub open spec fn mass_to(samples: Seq<Sample>, weighted: bool, n: int) -> real
    decreases n,
{
    if n <= 0 {
        0real
    } else {
        mass_to(samples, weighted, n - 1) + mass_of(samples[n - 1], weighted)
    }
}

/// The first of the first `n` samples that counts at which the mass reaches `threshold`.
pub open spec fn first_at(samples: Seq<Sample>, weighted: bool, threshold: real, n: int) -> Option<
    int,
>
    decreases n,
{
    if n <= 0 {
        None
    } else {
        match first_at(samples, weighted, threshold, n - 1) {
            Some(i) => Some(i),
            None => if counts(samples[n - 1], weighted) && mass_to(samples, weighted, n)
                >= threshold {
                Some(n - 1)
            } else {
                None
            },
        }
    }
}

/// What a probability asks for.
pub open spec fn threshold_of(samples: Seq<Sample>, weighted: bool, p: u64) -> real {
    value_of(p) * mass_to(samples, weighted, samples.len() as int)
}

/// The value at a probability: none where nothing weighs anything.
pub open spec fn quantile_of(samples: Seq<Sample>, weighted: bool, p: u64) -> Option<u64> {
    if mass_to(samples, weighted, samples.len() as int) == 0real {
        None
    } else {
        match first_at(samples, weighted, threshold_of(samples, weighted, p), samples.len() as int) {
            Some(i) => Some(samples[i].value),
            None => None,
        }
    }
}

/// Some probability is not reached although something weighs.
pub open spec fn rank_missing(samples: Seq<Sample>, weighted: bool, ps: Seq<u64>) -> bool {
    &&& mass_to(samples, weighted, samples.len() as int) != 0real
    &&& exists|i: int| 0 <= i < ps.len() && (#[trigger] quantile_of(samples, weighted, ps[i])) is None
}

/// Samples in the order of their values.
pub open spec fn in_order(samples: Seq<Sample>) -> bool {
    forall|i: int, j: int|
        0 <= i < j < samples.len() ==> order_key((#[trigger] samples[i]).value) <= order_key(
            (#[trigger] samples[j]).value,
        )
}

/// `slice::sort_unstable_by_key` by the place of each value in the total order: the same samples,
/// in the order of their values. Which of two samples with one value comes first stays unsaid.
#[verifier::external_body]
pub(crate) fn sort_samples(samples: &mut Vec<Sample>)
    ensures
        final(samples)@.to_multiset() == old(samples)@.to_multiset(),
        in_order(final(samples)@),
{
    samples.sort_unstable_by_key(|s| key_of(s.value));
}

/// What a sample weighs, if it counts.
fn mass(s: &Sample, weighted: bool) -> (r: Option<BigRational>)
    requires
        sample_ok(*s),
    ensures
        match r {
            Some(q) => counts(*s, weighted) && amount(q) == mass_of(*s, weighted),
            None => !counts(*s, weighted),
        },
{
    if !weighted {
        return Some(exact(s.coverage));
    }
    match s.weight {
        Some(w) => if w > 0 && w <= 0x7ff0_0000_0000_0000 {
            Some(times(&exact(s.coverage), &exact(w)))
        } else {
            None
        },
        None => None,
    }
}

fn total_mass<C: Cancel>(samples: &Vec<Sample>, weighted: bool, cancel: &C) -> (r: Result<
    BigRational,
    Error,
>)
    requires
        samples_ok(samples@),
    ensures
        r == Err::<BigRational, Error>(Error::Cancelled) ==> !cancel.never(),
        r != Err::<BigRational, Error>(Error::Cancelled) ==> r is Ok && amount(r->Ok_0) == mass_to(
            samples@,
            weighted,
            samples@.len() as int,
        ),
        cancel.always() && samples@.len() > 0 ==> r is Err,
{
    let mut total = whole(0);
    let mut i: usize = 0;
    while i < samples.len()
        invariant
            samples_ok(samples@),
            i <= samples@.len(),
            i > 0 ==> !cancel.always(),
            amount(total) == mass_to(samples@, weighted, i as int),
        decreases samples.len() - i,
    {
        if i % 1024 == 0 {
            check_cancel(cancel)?;
        }
        assert(sample_ok(samples@[i as int]));
        if let Some(q) = mass(&samples[i], weighted) {
            total = plus(&total, &q);
        }
        i += 1;
    }
    Ok(total)
}

/// The values at `probabilities`, over samples in the order of their values.
pub fn quantiles<C: Cancel>(
    samples: &Vec<Sample>,
    probabilities: &Vec<u64>,
    weighted: bool,
    cancel: &C,
) -> (r: Result<Vec<Option<u64>>, Error>)
    requires
        samples_ok(samples@),
        forall|i: int| 0 <= i < probabilities@.len() ==> finite_bits(#[trigger] probabilities@[i]),
    ensures
        r == Err::<Vec<Option<u64>>, Error>(Error::Cancelled) ==> !cancel.never(),
        r != Err::<Vec<Option<u64>>, Error>(Error::Cancelled) ==> if rank_missing(
            samples@,
            weighted,
            probabilities@,
        ) {
            r == Err::<Vec<Option<u64>>, Error>(Error::QuantileRank)
        } else {
            r is Ok && r->Ok_0@ == probabilities@.map_values(
                |p: u64| quantile_of(samples@, weighted, p),
            )
        },
        cancel.always() && samples@.len() > 0 ==> r is Err,
{
    let total = total_mass(samples, weighted, cancel)?;
    let count: usize = probabilities.len();
    let mut results: Vec<Option<u64>> = Vec::new();
    let mut k: usize = 0;
    if is_nothing(&total) {
        while k < count
            invariant
                count == probabilities@.len(),
                k <= count,
                results@.len() == k,
                forall|i: int| 0 <= i < k ==> (#[trigger] results@[i]) is None,
            decreases count - k,
        {
            results.push(None);
            k += 1;
        }
        assert(results@ =~= probabilities@.map_values(|p: u64| quantile_of(samples@, weighted, p)));
        return Ok(results);
    }
    let mut thresholds: Vec<BigRational> = Vec::new();
    while k < count
        invariant
            count == probabilities@.len(),
            forall|i: int|
                0 <= i < probabilities@.len() ==> finite_bits(#[trigger] probabilities@[i]),
            k <= count,
            amount(total) == mass_to(samples@, weighted, samples@.len() as int),
            results@.len() == k,
            thresholds@.len() == k,
            forall|i: int| 0 <= i < k ==> (#[trigger] results@[i]) is None,
            forall|i: int|
                0 <= i < k ==> amount(#[trigger] thresholds@[i]) == threshold_of(
                    samples@,
                    weighted,
                    probabilities@[i],
                ),
        decreases count - k,
    {
        thresholds.push(times(&exact(probabilities[k]), &total));
        results.push(None);
        k += 1;
    }
    let mut cumulative = whole(0);
    let mut n: usize = 0;
    while n < samples.len()
        invariant
            samples_ok(samples@),
            count == probabilities@.len(),
            n <= samples@.len(),
            results@.len() == count,
            thresholds@.len() == count,
            amount(cumulative) == mass_to(samples@, weighted, n as int),
            forall|i: int|
                0 <= i < count ==> amount(#[trigger] thresholds@[i]) == threshold_of(
                    samples@,
                    weighted,
                    probabilities@[i],
                ),
            reached(samples@, weighted, probabilities@, results@, n as int, count as int),
        decreases samples.len() - n,
    {
        if n % 1024 == 0 {
            check_cancel(cancel)?;
        }
        assert(sample_ok(samples@[n as int]));
        let found = mass(&samples[n], weighted);
        if let Some(q) = found {
            cumulative = plus(&cumulative, &q);
            let mut i: usize = 0;
            while i < count
                invariant
                    count == probabilities@.len(),
                    n < samples@.len(),
                    i <= count,
                    results@.len() == count,
                    thresholds@.len() == count,
                    counts(samples@[n as int], weighted),
                    amount(cumulative) == mass_to(samples@, weighted, n + 1),
                    forall|i: int|
                        0 <= i < count ==> amount(#[trigger] thresholds@[i]) == threshold_of(
                            samples@,
                            weighted,
                            probabilities@[i],
                        ),
                    reached(samples@, weighted, probabilities@, results@, n + 1, i as int),
                    forall|j: int|
                        i <= j < count ==> #[trigger] results@[j] == hit(
                            samples@,
                            weighted,
                            probabilities@[j],
                            n as int,
                        ),
                decreases count - i,
            {
                let ghost before = results@;
                if results[i].is_none() && at_least(&cumulative, &thresholds[i]) {
                    results.set(i, Some(samples[n].value));
                }
                proof {
                    lemma_hit(samples@, weighted, probabilities@[i as int], n as int);
                    assert(results@[i as int] == hit(
                        samples@,
                        weighted,
                        probabilities@[i as int],
                        n + 1,
                    ));
                }
                i += 1;
            }
        } else {
            proof {
                assert forall|j: int| 0 <= j < count implies #[trigger] results@[j] == hit(
                    samples@,
                    weighted,
                    probabilities@[j],
                    n + 1,
                ) by {
                    lemma_hit(samples@, weighted, probabilities@[j], n as int);
                }
            }
        }
        n += 1;
    }
    let mut i: usize = 0;
    while i < count
        invariant
            count == probabilities@.len(),
            i <= count,
            results@.len() == count,
            mass_to(samples@, weighted, samples@.len() as int) != 0real,
            reached(
                samples@,
                weighted,
                probabilities@,
                results@,
                samples@.len() as int,
                count as int,
            ),
            forall|j: int| 0 <= j < i ==> (#[trigger] results@[j]) is Some,
        decreases count - i,
    {
        assert(results@[i as int] == quantile_of(samples@, weighted, probabilities@[i as int]));
        if results[i].is_none() {
            return Err(Error::QuantileRank);
        }
        i += 1;
    }
    proof {
        assert forall|j: int| 0 <= j < count implies (#[trigger] quantile_of(
            samples@,
            weighted,
            probabilities@[j],
        )) is Some by {
            assert(results@[j] is Some);
        }
        assert(results@ =~= probabilities@.map_values(|p: u64| quantile_of(samples@, weighted, p)));
    }
    Ok(results)
}

/// The value that the first `n` samples give a probability.
pub open spec fn hit(samples: Seq<Sample>, weighted: bool, p: u64, n: int) -> Option<u64> {
    match first_at(samples, weighted, threshold_of(samples, weighted, p), n) {
        Some(i) => Some(samples[i].value),
        None => None,
    }
}

/// The first `m` results are what the first `n` samples give.
pub open spec fn reached(
    samples: Seq<Sample>,
    weighted: bool,
    ps: Seq<u64>,
    results: Seq<Option<u64>>,
    n: int,
    m: int,
) -> bool {
    forall|j: int| 0 <= j < m ==> #[trigger] results[j] == hit(samples, weighted, ps[j], n)
}

proof fn lemma_hit(samples: Seq<Sample>, weighted: bool, p: u64, n: int)
    requires
        0 <= n < samples.len(),
    ensures
        hit(samples, weighted, p, n + 1) == (if hit(samples, weighted, p, n) is Some {
            hit(samples, weighted, p, n)
        } else if counts(samples[n], weighted) && mass_to(samples, weighted, n + 1) >= threshold_of(
            samples,
            weighted,
            p,
        ) {
            Some(samples[n].value)
        } else {
            None
        }),
{
}

/// What the samples weigh whose value stands at `key` or below.
pub open spec fn mass_below(samples: Seq<Sample>, weighted: bool, key: int, n: int) -> real
    decreases n,
{
    if n <= 0 {
        0real
    } else {
        mass_below(samples, weighted, key, n - 1) + if order_key(samples[n - 1].value) <= key {
            mass_of(samples[n - 1], weighted)
        } else {
            0real
        }
    }
}

proof fn lemma_mass_sign(s: Sample, weighted: bool)
    requires
        sample_ok(s),
    ensures
        mass_of(s, weighted) >= 0real,
{
    crate::moments::lemma_value_sign(s.coverage);
    if counts(s, weighted) && weighted {
        crate::moments::lemma_value_sign(s.weight->0);
        lemma_product_sign(value_of(s.coverage), value_of(s.weight->0));
    }
}

/// In samples that are in order, those at a key or below come first.
proof fn lemma_prefix(samples: Seq<Sample>, weighted: bool, key: int, j: int, n: int)
    requires
        samples_ok(samples),
        in_order(samples),
        0 <= j <= n <= samples.len(),
        forall|i: int| 0 <= i < j ==> order_key((#[trigger] samples[i]).value) <= key,
        forall|i: int| j <= i < n ==> order_key((#[trigger] samples[i]).value) > key,
    ensures
        mass_below(samples, weighted, key, n) == mass_to(samples, weighted, j),
    decreases n,
{
    if n > 0 {
        if j < n {
            lemma_prefix(samples, weighted, key, j, n - 1);
        } else {
            lemma_prefix(samples, weighted, key, j - 1, n - 1);
        }
    }
}

proof fn lemma_grows(samples: Seq<Sample>, weighted: bool, a: int, b: int)
    requires
        samples_ok(samples),
        0 <= a <= b <= samples.len(),
    ensures
        mass_to(samples, weighted, a) <= mass_to(samples, weighted, b),
    decreases b,
{
    if a < b {
        lemma_grows(samples, weighted, a, b - 1);
        lemma_mass_sign(samples[b - 1], weighted);
    }
}

proof fn lemma_first(samples: Seq<Sample>, weighted: bool, threshold: real, n: int, i: int)
    requires
        0 <= n <= samples.len(),
        first_at(samples, weighted, threshold, n) == Some(i),
    ensures
        0 <= i < n,
        counts(samples[i], weighted),
        mass_to(samples, weighted, i + 1) >= threshold,
        forall|k: int|
            0 <= k < i && counts(#[trigger] samples[k], weighted) ==> mass_to(
                samples,
                weighted,
                k + 1,
            ) < threshold,
    decreases n,
{
    if n > 0 {
        if first_at(samples, weighted, threshold, n - 1) is Some {
            lemma_first(samples, weighted, threshold, n - 1, i);
        } else {
            lemma_unreached(samples, weighted, threshold, n - 1);
        }
    }
}

proof fn lemma_unreached(samples: Seq<Sample>, weighted: bool, threshold: real, n: int)
    requires
        0 <= n <= samples.len(),
        first_at(samples, weighted, threshold, n) is None,
    ensures
        forall|k: int|
            0 <= k < n && counts(#[trigger] samples[k], weighted) ==> mass_to(
                samples,
                weighted,
                k + 1,
            ) < threshold,
    decreases n,
{
    if n > 0 {
        lemma_unreached(samples, weighted, threshold, n - 1);
    }
}

/// The last sample that counts before `n` carries all the mass before `n`.
proof fn lemma_last_counting(samples: Seq<Sample>, weighted: bool, threshold: real, i: int, n: int)
    requires
        0 <= n <= i <= samples.len(),
        forall|k: int|
            0 <= k < i && counts(#[trigger] samples[k], weighted) ==> mass_to(
                samples,
                weighted,
                k + 1,
            ) < threshold,
        threshold > 0real,
    ensures
        mass_to(samples, weighted, n) < threshold,
    decreases n,
{
    if n > 0 {
        if counts(samples[n - 1], weighted) {
            assert(mass_to(samples, weighted, (n - 1) + 1) < threshold);
        } else {
            lemma_last_counting(samples, weighted, threshold, i, n - 1);
        }
    }
}

/// A quantile is the inverted distribution function: the samples up to its value weigh what the
/// probability asks for or more, and those up to any key below it weigh less.
pub proof fn a_quantile_inverts_the_distribution(
    samples: Seq<Sample>,
    weighted: bool,
    p: u64,
    v: u64,
    key: int,
)
    requires
        samples_ok(samples),
        in_order(samples),
        quantile_of(samples, weighted, p) == Some(v),
        threshold_of(samples, weighted, p) > 0real,
    ensures
        mass_below(samples, weighted, order_key(v), samples.len() as int) >= threshold_of(
            samples,
            weighted,
            p,
        ),
        key < order_key(v) ==> mass_below(samples, weighted, key, samples.len() as int)
            < threshold_of(samples, weighted, p),
{
    let n = samples.len() as int;
    let t = threshold_of(samples, weighted, p);
    let i = first_at(samples, weighted, t, n)->0;
    lemma_first(samples, weighted, t, n, i);
    let a = split(samples, order_key(v), n);
    lemma_split_at(samples, order_key(v), n);
    lemma_prefix(samples, weighted, order_key(v), a, n);
    assert(i < a);
    lemma_grows(samples, weighted, i + 1, a);
    if key < order_key(v) {
        let b = split(samples, key, n);
        lemma_split_at(samples, key, n);
        lemma_prefix(samples, weighted, key, b, n);
        assert(b <= i);
        lemma_last_counting(samples, weighted, t, i, b);
    }
}

/// How many of the first `n` samples stand at a key or below.
pub open spec fn split(samples: Seq<Sample>, key: int, n: int) -> int
    decreases n,
{
    if n <= 0 {
        0
    } else if order_key(samples[n - 1].value) <= key {
        n
    } else {
        split(samples, key, n - 1)
    }
}

proof fn lemma_split_at(samples: Seq<Sample>, key: int, n: int)
    requires
        in_order(samples),
        0 <= n <= samples.len(),
    ensures
        0 <= split(samples, key, n) <= n,
        forall|i: int|
            0 <= i < split(samples, key, n) ==> order_key((#[trigger] samples[i]).value) <= key,
        forall|i: int|
            split(samples, key, n) <= i < n ==> order_key((#[trigger] samples[i]).value) > key,
    decreases n,
{
    if n > 0 && order_key(samples[n - 1].value) > key {
        lemma_split_at(samples, key, n - 1);
    }
}

/// A probability of at most one is always reached.
pub proof fn a_probability_is_reached(samples: Seq<Sample>, weighted: bool, p: u64)
    requires
        samples_ok(samples),
        value_of(p) <= 1real,
        mass_to(samples, weighted, samples.len() as int) != 0real,
    ensures
        quantile_of(samples, weighted, p) is Some,
{
    let n = samples.len() as int;
    let m = mass_to(samples, weighted, n);
    lemma_grows(samples, weighted, 0, n);
    crate::algebra::lemma_share(value_of(p), m);
    let t = threshold_of(samples, weighted, p);
    if first_at(samples, weighted, t, n) is None {
        lemma_unreached(samples, weighted, t, n);
        lemma_all_below(samples, weighted, t, n);
    }
}

/// Mass that is nowhere reached stays below, or is nothing.
proof fn lemma_all_below(samples: Seq<Sample>, weighted: bool, t: real, n: int)
    requires
        0 <= n <= samples.len(),
        forall|k: int|
            0 <= k < n && counts(#[trigger] samples[k], weighted) ==> mass_to(
                samples,
                weighted,
                k + 1,
            ) < t,
    ensures
        mass_to(samples, weighted, n) < t || mass_to(samples, weighted, n) == 0real,
    decreases n,
{
    if n > 0 {
        if counts(samples[n - 1], weighted) {
            assert(mass_to(samples, weighted, (n - 1) + 1) < t);
        } else {
            lemma_all_below(samples, weighted, t, n - 1);
        }
    }
}

} // verus!
