//! Explicit central-moment and bounded exact-distribution reducers.
//! Geometry supplies unchanged positive native-cell fractions. These reducers
//! neither infer a mask nor reconstruct joint fields from marginal summaries.
use vstd::prelude::*;

use crate::cancel::{check_cancel, Cancel};
use crate::categories::{
    both_masses, counted, counts_to, holds_counts, leader, masses, plain_zero, rising, seen,
    without_negative_zero, Categories, CategoryResult,
};
use crate::error::Error;
use crate::moments::{
    above_zero, blank_float, deviation_value, moments_deviation, moments_taken, moments_variance,
    product_sampled, sampled, FloatEnd, FloatState, Moments, MomentsView, MOMENT_INTEGER_BITS,
};
use crate::quantiles::{
    counts, in_order, quantile_of, quantiles, rank_missing, samples_ok, sort_samples, Sample,
};
use crate::skv_header::{finite_bits, is_finite_bits};

verus! {

pub const DEFAULT_QUANTILE_SAMPLES: usize = 65536;

pub const MAX_QUANTILE_SAMPLES: usize = 1000000;

pub const MOMENT_TRANSIENT_BYTES: usize = 524288;

pub const MOMENT_RETAINED_BYTES: usize = 16384;

/// Bytes that one kept sample takes.
pub const SAMPLE_BYTES: usize = 24;

/// The bits of one half.
pub const HALF: u64 = 0x3fe0_0000_0000_0000;

pub const ARITHMETIC: &'static str = "compensated_f64_with_bounded_rational_fallback";

pub const METHOD: &'static str = "inverted_cdf";

pub const BY_COVERAGE: &'static str = "coverage";

pub const BY_WEIGHT: &'static str = "coverage_times_weight";

/// Which statistics are asked for.
#[derive(Clone, Copy, Debug, PartialEq, Eq, Structural)]
pub struct Wanted {
    pub variance: bool,
    pub stddev: bool,
    pub weighted_variance: bool,
    pub weighted_stddev: bool,
    pub categories: bool,
    pub majority: bool,
    pub variety: bool,
    pub median: bool,
    pub quantiles: bool,
    pub weighted_median: bool,
    pub weighted_quantiles: bool,
}

impl Wanted {
    pub open spec fn moments(self) -> bool {
        self.variance || self.stddev
    }

    pub open spec fn weighted_moments(self) -> bool {
        self.weighted_variance || self.weighted_stddev
    }

    pub open spec fn unweighted_samples(self) -> bool {
        self.median || self.quantiles
    }

    pub open spec fn samples(self) -> bool {
        self.unweighted_samples() || self.weighted_median || self.weighted_quantiles
    }
}

/// What a reducer is asked for, with the probabilities of its quantiles and the domain of its
/// categories as the bits of doubles.
pub struct Options {
    pub wanted: Wanted,
    pub quantiles: Option<Vec<u64>>,
    pub category_values: Option<Vec<u64>>,
    pub quantile_limit: usize,
}

/// The values of a list, where there is one.
pub open spec fn listed(v: Option<Vec<u64>>) -> Option<Seq<u64>> {
    match v {
        Some(v) => Some(v@),
        None => None,
    }
}

impl Options {
    /// Probabilities are finite and there where quantiles are asked for; a domain rises.
    pub open spec fn wf(&self) -> bool {
        &&& self.wanted.quantiles || self.wanted.weighted_quantiles ==> self.quantiles is Some
        &&& self.quantiles matches Some(ps) ==> forall|i: int|
            0 <= i < ps@.len() ==> finite_bits(#[trigger] ps@[i])
        &&& self.category_values matches Some(v) ==> rising(v@.map_values(|v: u64| plain_zero(v)))
    }

    /// Two options ask for the same reduction.
    pub open spec fn same(&self, other: &Self) -> bool {
        &&& self.wanted == other.wanted
        &&& listed(self.quantiles) == listed(other.quantiles)
        &&& listed(self.category_values) == listed(other.category_values)
        &&& self.quantile_limit == other.quantile_limit
    }
}

fn same_values(a: &Vec<u64>, b: &Vec<u64>) -> (r: bool)
    ensures
        r == (a@ == b@),
{
    if a.len() != b.len() {
        return false;
    }
    let mut i: usize = 0;
    while i < a.len()
        invariant
            a@.len() == b@.len(),
            i <= a@.len(),
            forall|k: int| 0 <= k < i ==> #[trigger] a@[k] == b@[k],
        decreases a.len() - i,
    {
        if a[i] != b[i] {
            return false;
        }
        i += 1;
    }
    assert(a@ =~= b@);
    true
}

fn same_lists(a: &Option<Vec<u64>>, b: &Option<Vec<u64>>) -> (r: bool)
    ensures
        r == (listed(*a) == listed(*b)),
{
    match (a, b) {
        (Some(a), Some(b)) => same_values(a, b),
        (None, None) => true,
        _ => false,
    }
}

fn same_options(a: &Options, b: &Options) -> (r: bool)
    ensures
        r == a.same(b),
{
    a.wanted == b.wanted && same_lists(&a.quantiles, &b.quantiles) && same_lists(
        &a.category_values,
        &b.category_values,
    ) && a.quantile_limit == b.quantile_limit
}

/// Bytes that a reducer may come to hold.
pub open spec fn retained(o: Options) -> int {
    let categories = match o.category_values {
        Some(v) => v@.len() as int,
        None => 0,
    };
    let samples = if o.wanted.samples() {
        o.quantile_limit as int
    } else {
        0
    };
    let moments = (if o.wanted.moments() {
        1int
    } else {
        0
    }) + (if o.wanted.weighted_moments() {
        1int
    } else {
        0
    });
    categories * 512 + moments * MOMENT_RETAINED_BYTES + samples * SAMPLE_BYTES + 4096
}

/// Bytes that a reducer needs for a moment.
pub open spec fn transient(w: Wanted) -> int {
    4096 + (if w.moments() || w.weighted_moments() {
        MOMENT_TRANSIENT_BYTES as int
    } else {
        0
    }) + (if w.samples() {
        131072int
    } else {
        0
    })
}

#[derive(Clone, Copy, Debug, PartialEq, Eq)]
pub struct MomentDiagnostics {
    pub arithmetic: &'static str,
    pub unweighted_rational_fallback: bool,
    pub weighted_rational_fallback: bool,
    pub max_retained_integer_bits: u64,
}

pub struct QuantileResult {
    pub probabilities: Vec<u64>,
    pub values: Vec<Option<u64>>,
    pub method: &'static str,
    pub weighting: &'static str,
    pub exact_rank: bool,
}

/// What a reduction comes to: each statistic that was asked for.
pub struct ReducerResult {
    pub moment_diagnostics: Option<MomentDiagnostics>,
    pub variance: Option<Option<u64>>,
    pub stddev: Option<Option<u64>>,
    pub weighted_variance: Option<Option<u64>>,
    pub weighted_stddev: Option<Option<u64>>,
    pub categories: Option<CategoryResult>,
    pub majority: Option<Option<u64>>,
    pub variety: Option<usize>,
    pub median: Option<Option<u64>>,
    pub quantiles: Option<QuantileResult>,
    pub weighted_median: Option<Option<u64>>,
    pub weighted_quantiles: Option<QuantileResult>,
}

/// The reduction of covered values.
pub struct Reducers {
    pub options: Options,
    pub moments: Option<Moments>,
    pub weighted_moments: Option<Moments>,
    pub categories: Option<Categories>,
    pub samples: Vec<Sample>,
    pub error: Option<Error>,
}

/// A reducer as a whole.
pub ghost struct ReducersView {
    pub options: Options,
    pub domain: Seq<u64>,
    pub held: Held,
    pub error: Option<Error>,
}

/// What a reducer holds.
pub ghost struct Held {
    pub moments: Option<MomentsView>,
    pub weighted_moments: Option<MomentsView>,
    pub masses: Option<Seq<nat>>,
    pub samples: Seq<Sample>,
}

/// What floating arithmetic gave for one cell: the merge of its sample into each floating state,
/// none where a guard failed, and the product of its fraction and its weight.
#[derive(Clone, Copy, Debug, PartialEq, Eq)]
pub struct CellFloats {
    pub plain: Option<FloatState>,
    pub effective: u64,
    pub weighted: Option<FloatState>,
}

pub open spec fn finite_state(f: Option<FloatState>) -> bool {
    f matches Some(f) ==> f.finite()
}

/// What floating arithmetic gave at the end of one floating state, and the root of its exact
/// mantissa times its scale.
#[derive(Clone, Copy, Debug, PartialEq, Eq)]
pub struct MomentEnd {
    pub float: FloatEnd,
    pub product: u64,
}

/// A weight that counts: finite and not below zero.
pub open spec fn counting_weight(weight: Option<u64>) -> Option<u64> {
    match weight {
        Some(w) => if finite_bits(w) && w <= 0x8000_0000_0000_0000 {
            Some(w)
        } else {
            None
        },
        None => None,
    }
}

/// A cell is kept as a sample.
pub open spec fn keeps_sample(w: Wanted, weight: Option<u64>) -> bool {
    w.samples() && (w.unweighted_samples() || (weight matches Some(w) && above_zero(w)))
}

/// What a reducer holds after one more cell, or why it cannot take it.
pub open spec fn with_cell(
    o: Options,
    domain: Seq<u64>,
    h: Held,
    value: u64,
    fraction: u64,
    weight: Option<u64>,
    floats: CellFloats,
) -> Result<Held, Error> {
    if !finite_bits(value) || !(0 < fraction <= 0x3ff0_0000_0000_0000) {
        Err(Error::ReducerContribution)
    } else {
        match plain_step(h.moments, value, fraction, floats.plain) {
            Err(e) => Err(e),
            Ok(moments) => match mass_step(domain, h.masses, value, fraction) {
                Err(e) => Err(e),
                Ok(masses) => match weighted_step(
                    h.weighted_moments,
                    value,
                    fraction,
                    counting_weight(weight),
                    floats,
                ) {
                    Err(e) => Err(e),
                    Ok(weighted_moments) => if !keeps_sample(o.wanted, counting_weight(weight)) {
                        Ok(Held { moments, weighted_moments, masses, samples: h.samples })
                    } else if h.samples.len() >= o.quantile_limit {
                        Err(Error::QuantileBudget)
                    } else {
                        Ok(
                            Held {
                                moments,
                                weighted_moments,
                                masses,
                                samples: h.samples.push(
                                    Sample {
                                        value: plain_zero(value),
                                        coverage: fraction,
                                        weight: counting_weight(weight),
                                    },
                                ),
                            },
                        )
                    },
                },
            },
        }
    }
}

pub open spec fn plain_step(
    m: Option<MomentsView>,
    value: u64,
    fraction: u64,
    floated: Option<FloatState>,
) -> Result<Option<MomentsView>, Error> {
    match m {
        None => Ok(None),
        Some(m) => match sampled(m, value, fraction, floated) {
            Ok(m) => Ok(Some(m)),
            Err(e) => Err(e),
        },
    }
}

pub open spec fn mass_step(domain: Seq<u64>, m: Option<Seq<nat>>, value: u64, fraction: u64) -> Result<
    Option<Seq<nat>>,
    Error,
> {
    match m {
        None => Ok(None),
        Some(m) => match counted(domain, m, value, fraction) {
            Ok(m) => Ok(Some(m)),
            Err(e) => Err(e),
        },
    }
}

pub open spec fn weighted_step(
    m: Option<MomentsView>,
    value: u64,
    fraction: u64,
    weight: Option<u64>,
    floats: CellFloats,
) -> Result<Option<MomentsView>, Error> {
    match (m, weight) {
        (Some(v), Some(w)) => match product_sampled(
            v,
            value,
            fraction,
            w,
            floats.effective,
            floats.weighted,
        ) {
            Ok(v) => Ok(Some(v)),
            Err(e) => Err(e),
        },
        _ => Ok(m),
    }
}

/// What a reducer and another hold together, or why they cannot be merged.
pub open spec fn with_other(
    o: Options,
    a: Held,
    b: Held,
    plain: Option<FloatState>,
    weighted: Option<FloatState>,
) -> Result<Held, Error> {
    match moments_step(a.moments, b.moments, plain) {
        Err(e) => Err(e),
        Ok(moments) => match moments_step(a.weighted_moments, b.weighted_moments, weighted) {
            Err(e) => Err(e),
            Ok(weighted_moments) => match masses_step(a.masses, b.masses) {
                Err(e) => Err(e),
                Ok(masses) => if b.samples.len() > 0 && a.samples.len() + b.samples.len()
                    > usize::MAX {
                    Err(Error::QuantileOverflow)
                } else if b.samples.len() > 0 && a.samples.len() + b.samples.len()
                    > o.quantile_limit {
                    Err(Error::QuantileMergeBudget)
                } else {
                    Ok(
                        Held {
                            moments,
                            weighted_moments,
                            masses,
                            samples: a.samples + b.samples,
                        },
                    )
                },
            },
        },
    }
}

pub open spec fn moments_step(
    a: Option<MomentsView>,
    b: Option<MomentsView>,
    floated: Option<FloatState>,
) -> Result<Option<MomentsView>, Error> {
    match (a, b) {
        (Some(x), Some(y)) => match moments_taken(x, y, floated) {
            Ok(m) => Ok(Some(m)),
            Err(e) => Err(e),
        },
        _ => Ok(a),
    }
}

pub open spec fn masses_step(a: Option<Seq<nat>>, b: Option<Seq<nat>>) -> Result<
    Option<Seq<nat>>,
    Error,
> {
    match (a, b) {
        (Some(x), Some(y)) => match both_masses(x, y) {
            Ok(m) => Ok(Some(m)),
            Err(e) => Err(e),
        },
        _ => Ok(a),
    }
}

impl Reducers {
    /// Its options, the domain of its categories, what it holds and the error that it met.
    pub open spec fn view(&self) -> ReducersView {
        ReducersView {
            options: self.options,
            domain: self.domain(),
            held: self.held(),
            error: self.error,
        }
    }

    /// What is held.
    pub open spec fn held(&self) -> Held {
        Held {
            moments: match self.moments {
                Some(m) => Some(m@),
                None => None,
            },
            weighted_moments: match self.weighted_moments {
                Some(m) => Some(m@),
                None => None,
            },
            masses: match self.categories {
                Some(c) => Some(masses(c.support@)),
                None => None,
            },
            samples: self.samples@,
        }
    }

    /// The domain of the categories.
    pub open spec fn domain(&self) -> Seq<u64> {
        match self.options.category_values {
            Some(v) => v@.map_values(|v: u64| plain_zero(v)),
            None => Seq::empty(),
        }
    }

    pub open spec fn wf(&self) -> bool {
        &&& self.options.wf()
        &&& self.moments is Some == self.options.wanted.moments()
        &&& self.weighted_moments is Some == self.options.wanted.weighted_moments()
        &&& self.categories is Some == self.options.category_values is Some
        &&& self.moments matches Some(m) ==> m.wf()
        &&& self.weighted_moments matches Some(m) ==> m.wf()
        &&& self.categories matches Some(c) ==> c.wf() && c.domain@ == self.domain()
        &&& samples_ok(self.samples@)
    }

    pub fn retained_bytes(options: &Options) -> (r: Result<usize, Error>)
        ensures
            r == (if retained(*options) <= usize::MAX {
                Ok::<usize, Error>(retained(*options) as usize)
            } else {
                Err(Error::ReducerMemory)
            }),
    {
        let categories: u128 = match &options.category_values {
            Some(v) => v.len() as u128,
            None => 0,
        };
        let w = options.wanted;
        let samples: u128 = if w.median || w.quantiles || w.weighted_median || w.weighted_quantiles {
            options.quantile_limit as u128
        } else {
            0
        };
        let mut bytes: u128 = categories * 512 + samples * SAMPLE_BYTES as u128 + 4096;
        if w.variance || w.stddev {
            bytes = bytes + MOMENT_RETAINED_BYTES as u128;
        }
        if w.weighted_variance || w.weighted_stddev {
            bytes = bytes + MOMENT_RETAINED_BYTES as u128;
        }
        if bytes <= usize::MAX as u128 {
            Ok(bytes as usize)
        } else {
            Err(Error::ReducerMemory)
        }
    }

    pub fn transient_bytes(options: &Options) -> (r: usize)
        ensures
            r == transient(options.wanted),
    {
        let w = options.wanted;
        let mut bytes: usize = 4096;
        if w.variance || w.stddev || w.weighted_variance || w.weighted_stddev {
            bytes = bytes + MOMENT_TRANSIENT_BYTES;
        }
        if w.median || w.quantiles || w.weighted_median || w.weighted_quantiles {
            bytes = bytes + 131072;
        }
        bytes
    }

    pub fn new(options: Options) -> (r: Self)
        requires
            options.wf(),
        ensures
            r.wf(),
            r.options == options,
            r.error is None,
            r.held() == (Held {
                moments: if options.wanted.moments() {
                    Some(MomentsView { float: blank_float(), exact: None })
                } else {
                    None
                },
                weighted_moments: if options.wanted.weighted_moments() {
                    Some(MomentsView { float: blank_float(), exact: None })
                } else {
                    None
                },
                masses: match options.category_values {
                    Some(v) => Some(Seq::new(v@.len(), |i: int| 0nat)),
                    None => None,
                },
                samples: Seq::empty(),
            }),
    {
        let w = options.wanted;
        let moments: Option<Moments> = if w.variance || w.stddev {
            Some(Moments::new())
        } else {
            None
        };
        let weighted_moments: Option<Moments> = if w.weighted_variance || w.weighted_stddev {
            Some(Moments::new())
        } else {
            None
        };
        let categories: Option<Categories> = match &options.category_values {
            Some(v) => Some(Categories::new(v)),
            None => None,
        };
        Reducers { options, moments, weighted_moments, categories, samples: Vec::new(), error: None }
    }

    /// The first error that a cell met.
    pub fn check_error(&self) -> (r: Result<(), Error>)
        ensures
            r == match self.error {
                Some(e) => Err::<(), Error>(e),
                None => Ok(()),
            },
    {
        match self.error {
            Some(e) => Err(e),
            None => Ok(()),
        }
    }

    /// Take a cell in. The first error is kept, and nothing is taken in after it.
    pub fn cell(&mut self, value: u64, fraction: u64, weight: Option<u64>, floats: CellFloats)
        requires
            old(self).wf(),
            finite_state(floats.plain),
            finite_state(floats.weighted),
        ensures
            final(self).wf(),
            final(self)@.options == old(self)@.options,
            final(self)@.domain == old(self)@.domain,
            if old(self).error is Some {
                final(self)@ == old(self)@
            } else {
                match with_cell(
                    old(self).options,
                    old(self).domain(),
                    old(self).held(),
                    value,
                    fraction,
                    weight,
                    floats,
                ) {
                    Ok(h) => final(self).error is None && final(self).held() == h,
                    Err(e) => final(self).error == Some(e),
                }
            },
    {
        if self.error.is_some() {
            return;
        }
        if let Err(e) = self.try_cell(value, fraction, weight, floats) {
            self.error = Some(e);
        }
    }

    fn try_cell(&mut self, value: u64, fraction: u64, weight: Option<u64>, floats: CellFloats) -> (r:
        Result<(), Error>)
        requires
            old(self).wf(),
            finite_state(floats.plain),
            finite_state(floats.weighted),
        ensures
            final(self).wf(),
            final(self).options == old(self).options,
            final(self).error == old(self).error,
            match with_cell(
                old(self).options,
                old(self).domain(),
                old(self).held(),
                value,
                fraction,
                weight,
                floats,
            ) {
                Ok(h) => r is Ok && final(self).held() == h,
                Err(e) => r == Err::<(), Error>(e),
            },
    {
        if !is_finite_bits(value) || fraction == 0 || fraction > 0x3ff0_0000_0000_0000 {
            return Err(Error::ReducerContribution);
        }
        if let Some(m) = &mut self.moments {
            m.sample(value, fraction, floats.plain)?;
        }
        if let Some(c) = &mut self.categories {
            c.add(value, fraction)?;
        }
        let weight: Option<u64> = match weight {
            Some(w) => if is_finite_bits(w) && w <= 0x8000_0000_0000_0000 {
                Some(w)
            } else {
                None
            },
            None => None,
        };
        if let Some(m) = &mut self.weighted_moments {
            if let Some(w) = weight {
                m.sample_product(value, fraction, w, floats.effective, floats.weighted)?;
            }
        }
        let wanted = self.options.wanted;
        let unweighted = wanted.median || wanted.quantiles;
        let positive = match weight {
            Some(w) => w > 0 && w <= 0x7ff0_0000_0000_0000,
            None => false,
        };
        if (unweighted || wanted.weighted_median || wanted.weighted_quantiles) && (unweighted
            || positive) {
            if self.samples.len() >= self.options.quantile_limit {
                return Err(Error::QuantileBudget);
            }
            self.samples.push(
                Sample { value: without_negative_zero(value), coverage: fraction, weight },
            );
        }
        Ok(())
    }

    /// Take another reduction in.
    pub fn merge(&mut self, rhs: Self, plain: Option<FloatState>, weighted: Option<FloatState>) -> (r:
        Result<(), Error>)
        requires
            old(self).wf(),
            rhs.wf(),
            finite_state(plain),
            finite_state(weighted),
        ensures
            final(self).wf(),
            final(self).options == old(self).options,
            final(self).error == old(self).error,
            match (old(self).error, rhs.error) {
                (Some(e), _) => r == Err::<(), Error>(e),
                (None, Some(e)) => r == Err::<(), Error>(e),
                (None, None) => if !old(self).options.same(&rhs.options) {
                    r == Err::<(), Error>(Error::ReducerConfiguration)
                } else {
                    match with_other(old(self).options, old(self).held(), rhs.held(), plain, weighted) {
                        Ok(h) => r is Ok && final(self).held() == h,
                        Err(e) => r == Err::<(), Error>(e),
                    }
                },
            },
    {
        if let Some(e) = self.error {
            return Err(e);
        }
        if let Some(e) = rhs.error {
            return Err(e);
        }
        if !same_options(&self.options, &rhs.options) {
            return Err(Error::ReducerConfiguration);
        }
        if let Some(a) = &mut self.moments {
            if let Some(b) = &rhs.moments {
                a.merge(b, plain)?;
            }
        }
        if let Some(a) = &mut self.weighted_moments {
            if let Some(b) = &rhs.weighted_moments {
                a.merge(b, weighted)?;
            }
        }
        if let Some(a) = &mut self.categories {
            if let Some(b) = &rhs.categories {
                a.merge(b)?;
            }
        }
        let ghost before = self.samples@;
        let mut more = rhs.samples;
        if more.len() > 0 {
            let total: usize = match self.samples.len().checked_add(more.len()) {
                Some(total) => total,
                None => {
                    return Err(Error::QuantileOverflow);
                },
            };
            if total > self.options.quantile_limit {
                return Err(Error::QuantileMergeBudget);
            }
            self.samples.append(&mut more);
        }
        assert(self.samples@ =~= before + rhs.samples@);
        Ok(())
    }
}

/// The variance and the deviation of moments, where they are asked for.
pub open spec fn moments_end(m: Option<MomentsView>, variance: bool, stddev: bool, end: MomentEnd) -> Result<
    (Option<Option<u64>>, Option<Option<u64>>),
    Error,
> {
    match m {
        None => Ok((None, None)),
        Some(v) => {
            let dev = match moments_deviation(v, end.float) {
                Err(e) => Err(e),
                Ok(d) => deviation_value(d, end.product),
            };
            match (variance, moments_variance(v, end.float)) {
                (true, Err(e)) => Err(e),
                (true, Ok(a)) => if stddev {
                    match dev {
                        Err(e) => Err(e),
                        Ok(b) => Ok((Some(a), Some(b))),
                    }
                } else {
                    Ok((Some(a), None))
                },
                (false, _) => if stddev {
                    match dev {
                        Err(e) => Err(e),
                        Ok(b) => Ok((None, Some(b))),
                    }
                } else {
                    Ok((None, None))
                },
            }
        },
    }
}

/// What can go wrong at the end of a reduction, in order; none where it ends well.
pub open spec fn end_refusal(r: Reducers, sorted: Seq<Sample>, plain: MomentEnd, weighted: MomentEnd) -> Option<
    Error,
> {
    let w = r.options.wanted;
    let h = r.held();
    match moments_end(h.moments, w.variance, w.stddev, plain) {
        Err(e) => Some(e),
        Ok(_) => match moments_end(
            h.weighted_moments,
            w.weighted_variance,
            w.weighted_stddev,
            weighted,
        ) {
            Err(e) => Some(e),
            Ok(_) => match masses_end(h.masses) {
                Some(e) => Some(e),
                None => if mode_fails(r.options, sorted, false) || mode_fails(
                    r.options,
                    sorted,
                    true,
                ) {
                    Some(Error::QuantileRank)
                } else {
                    None
                },
            },
        },
    }
}

pub open spec fn masses_end(m: Option<Seq<nat>>) -> Option<Error> {
    match m {
        None => None,
        Some(m) => match counts_to(m, m.len() as int) {
            Err(e) => Some(e),
            Ok(_) => None,
        },
    }
}

pub open spec fn wants_median(w: Wanted, weighted: bool) -> bool {
    if weighted {
        w.weighted_median
    } else {
        w.median
    }
}

pub open spec fn wants_quantiles(w: Wanted, weighted: bool) -> bool {
    if weighted {
        w.weighted_quantiles
    } else {
        w.quantiles
    }
}

/// Some quantile of a mode is not reached.
pub open spec fn mode_fails(o: Options, sorted: Seq<Sample>, weighted: bool) -> bool {
    ||| wants_median(o.wanted, weighted) && rank_missing(sorted, weighted, seq![HALF])
    ||| wants_quantiles(o.wanted, weighted) && rank_missing(sorted, weighted, o.quantiles->0@)
}

/// The median of a mode, where it is asked for.
pub open spec fn median_end(o: Options, sorted: Seq<Sample>, weighted: bool) -> Option<Option<u64>> {
    if wants_median(o.wanted, weighted) {
        Some(quantile_of(sorted, weighted, HALF))
    } else {
        None
    }
}

/// A quantile result of a mode is there where it is asked for, and holds the quantiles.
pub open spec fn quantiles_end(
    o: Options,
    sorted: Seq<Sample>,
    weighted: bool,
    r: Option<QuantileResult>,
) -> bool {
    match r {
        None => !wants_quantiles(o.wanted, weighted),
        Some(q) => {
            &&& wants_quantiles(o.wanted, weighted)
            &&& q.probabilities@ == o.quantiles->0@
            &&& q.values@ == o.quantiles->0@.map_values(
                |p: u64| quantile_of(sorted, weighted, p),
            )
            &&& q.method@ == METHOD@
            &&& q.weighting@ == (if weighted {
                BY_WEIGHT@
            } else {
                BY_COVERAGE@
            })
            &&& q.exact_rank
        },
    }
}

/// A result holds what a reduction comes to.
pub open spec fn ends_with(
    r: Reducers,
    sorted: Seq<Sample>,
    plain: MomentEnd,
    weighted: MomentEnd,
    out: ReducerResult,
) -> bool {
    let o = r.options;
    let w = o.wanted;
    let h = r.held();
    &&& moments_end(h.moments, w.variance, w.stddev, plain) == Ok::<_, Error>(
        (out.variance, out.stddev),
    )
    &&& moments_end(
        h.weighted_moments,
        w.weighted_variance,
        w.weighted_stddev,
        weighted,
    ) == Ok::<_, Error>((out.weighted_variance, out.weighted_stddev))
    &&& diagnoses(h.moments, h.weighted_moments, out.moment_diagnostics)
    &&& categories_end(
        r.domain(),
        h.masses,
        w,
        out.categories,
        out.majority,
        out.variety,
    )
    &&& out.median == median_end(o, sorted, false)
    &&& out.weighted_median == median_end(o, sorted, true)
    &&& quantiles_end(o, sorted, false, out.quantiles)
    &&& quantiles_end(o, sorted, true, out.weighted_quantiles)
}

/// What is said of the arithmetic of moments, where there are any.
pub open spec fn diagnoses(
    plain: Option<MomentsView>,
    weighted: Option<MomentsView>,
    r: Option<MomentDiagnostics>,
) -> bool {
    match r {
        None => plain is None && weighted is None,
        Some(d) => {
            &&& plain is Some || weighted is Some
            &&& d.arithmetic@ == ARITHMETIC@
            &&& d.unweighted_rational_fallback == (plain matches Some(m) && m.exact is Some)
            &&& d.weighted_rational_fallback == (weighted matches Some(m) && m.exact is Some)
            &&& d.max_retained_integer_bits == MOMENT_INTEGER_BITS
        },
    }
}

/// The moments of an option.
pub open spec fn moments_of(m: Option<Moments>) -> Option<MomentsView> {
    match m {
        Some(m) => Some(m@),
        None => None,
    }
}

fn diagnosed(plain: &Option<Moments>, weighted: &Option<Moments>) -> (r: Option<MomentDiagnostics>)
    ensures
        diagnoses(moments_of(*plain), moments_of(*weighted), r),
{
    if plain.is_none() && weighted.is_none() {
        return None;
    }
    Some(
        MomentDiagnostics {
            arithmetic: ARITHMETIC,
            unweighted_rational_fallback: match plain {
                Some(m) => m.is_exact(),
                None => false,
            },
            weighted_rational_fallback: match weighted {
                Some(m) => m.is_exact(),
                None => false,
            },
            max_retained_integer_bits: MOMENT_INTEGER_BITS,
        },
    )
}

/// Counting fails in one of two ways.
proof fn lemma_count_errors(m: Seq<nat>, n: int)
    ensures
        counts_to(m, n) matches Err(e) ==> e == Error::NonfiniteCategory || e
            == Error::CategoryFraction,
    decreases n,
{
    if n > 0 {
        lemma_count_errors(m, n - 1);
    }
}

fn finish_categories(c: Option<Categories>, w: Wanted) -> (r: Result<
    (Option<CategoryResult>, Option<Option<u64>>, Option<usize>),
    Error,
>)
    requires
        c matches Some(c) ==> c.wf(),
    ensures
        ({
            let m = match c {
                Some(c) => Some(masses(c.support@)),
                None => None,
            };
            let domain = match c {
                Some(c) => c.domain@,
                None => Seq::empty(),
            };
            match masses_end(m) {
                Some(e) => r == Err::<
                    (Option<CategoryResult>, Option<Option<u64>>, Option<usize>),
                    Error,
                >(e) && e != Error::Cancelled,
                None => r is Ok && categories_end(
                    domain,
                    m,
                    w,
                    r->Ok_0.0,
                    r->Ok_0.1,
                    r->Ok_0.2,
                ),
            }
        }),
{
    let mut categories: Option<CategoryResult> = None;
    let mut majority: Option<Option<u64>> = None;
    let mut variety: Option<usize> = None;
    if let Some(c) = c {
        proof {
            let m = masses(c.support@);
            lemma_count_errors(m, m.len() as int);
        }
        let end = c.finish()?;
        if w.categories {
            categories = Some(end.result);
        }
        if w.majority {
            majority = Some(end.majority);
        }
        if w.variety {
            variety = Some(end.variety);
        }
    }
    Ok((categories, majority, variety))
}

/// A result holds what the categories come to.
pub open spec fn categories_end(
    domain: Seq<u64>,
    m: Option<Seq<nat>>,
    w: Wanted,
    categories: Option<CategoryResult>,
    majority: Option<Option<u64>>,
    variety: Option<usize>,
) -> bool {
    match m {
        None => categories is None && majority is None && variety is None,
        Some(m) => {
            let n = m.len() as int;
            &&& categories is Some == w.categories
            &&& categories matches Some(c) ==> c.values@ == domain && holds_counts(
                c,
                counts_to(m, n)->Ok_0,
            )
            &&& majority == (if w.majority {
                Some(
                    match leader(m, n) {
                        Some(i) => Some(domain[i]),
                        None => None,
                    },
                )
            } else {
                None
            })
            &&& variety == (if w.variety {
                Some(seen(m, n) as usize)
            } else {
                None
            })
        },
    }
}

fn finish_moments(m: &Option<Moments>, variance: bool, stddev: bool, end: MomentEnd) -> (r: Result<
    (Option<Option<u64>>, Option<Option<u64>>),
    Error,
>)
    requires
        m matches Some(m) ==> m.wf(),
    ensures
        r == moments_end(moments_of(*m), variance, stddev, end),
        r != Err::<(Option<Option<u64>>, Option<Option<u64>>), Error>(Error::Cancelled),
{
    match m {
        None => Ok((None, None)),
        Some(m) => {
            let a: Option<Option<u64>> = if variance {
                Some(m.variance(end.float)?)
            } else {
                None
            };
            let b: Option<Option<u64>> = if stddev {
                let d = m.stddev(end.float)?;
                Some(d.finish(end.product)?)
            } else {
                None
            };
            Ok((a, b))
        },
    }
}

fn find_half(ps: &Vec<u64>) -> (r: Option<usize>)
    ensures
        match r {
            Some(i) => i < ps@.len() && ps@[i as int] == HALF,
            None => !ps@.contains(HALF),
        },
{
    let mut i: usize = 0;
    while i < ps.len()
        invariant
            i <= ps@.len(),
            forall|k: int| 0 <= k < i ==> #[trigger] ps@[k] != HALF,
        decreases ps.len() - i,
    {
        if ps[i] == HALF {
            return Some(i);
        }
        i += 1;
    }
    None
}

fn copied(values: &Vec<u64>) -> (r: Vec<u64>)
    ensures
        r@ == values@,
{
    let mut out: Vec<u64> = Vec::new();
    let mut i: usize = 0;
    while i < values.len()
        invariant
            i <= values@.len(),
            out@ == values@.take(i as int),
        decreases values.len() - i,
    {
        out.push(values[i]);
        i += 1;
    }
    assert(values@.take(i as int) =~= values@);
    out
}

/// The median and the quantiles of one mode, over samples in the order of their values. A median
/// that is among the quantiles is taken from them.
fn finish_mode<C: Cancel>(o: &Options, sorted: &Vec<Sample>, weighted: bool, cancel: &C) -> (r: Result<
    (Option<Option<u64>>, Option<QuantileResult>),
    Error,
>)
    requires
        o.wf(),
        samples_ok(sorted@),
    ensures
        r matches Err(e) && e == Error::Cancelled ==> !cancel.never(),
        match r {
            Err(e) => e != Error::Cancelled ==> e == Error::QuantileRank && mode_fails(
                *o,
                sorted@,
                weighted,
            ),
            Ok((median, found)) => {
                &&& !mode_fails(*o, sorted@, weighted)
                &&& median == median_end(*o, sorted@, weighted)
                &&& quantiles_end(*o, sorted@, weighted, found)
            },
        },
{
    let w = o.wanted;
    let wants_one = if weighted {
        w.weighted_median
    } else {
        w.median
    };
    let wants_many = if weighted {
        w.weighted_quantiles
    } else {
        w.quantiles
    };
    let mut median: Option<Option<u64>> = None;
    let shared: Option<usize> = if wants_one && wants_many {
        match &o.quantiles {
            Some(ps) => find_half(ps),
            None => None,
        }
    } else {
        None
    };
    if wants_one && shared.is_none() {
        let mut half: Vec<u64> = Vec::new();
        half.push(HALF);
        assert(half@ =~= seq![HALF]);
        let found = quantiles(sorted, &half, weighted, cancel)?;
        assert(found@[0] == quantile_of(sorted@, weighted, half@[0]));
        median = Some(found[0]);
    }
    if !wants_many {
        return Ok((median, None));
    }
    match &o.quantiles {
        None => Ok((median, None)),
        Some(ps) => {
            let values = quantiles(sorted, ps, weighted, cancel)?;
            if let Some(i) = shared {
                check_cancel(cancel)?;
                assert(values@[i as int] == quantile_of(sorted@, weighted, ps@[i as int]));
                proof {
                    if rank_missing(sorted@, weighted, seq![HALF]) {
                        let k = choose|k: int|
                            0 <= k < 1 && (#[trigger] quantile_of(
                                sorted@,
                                weighted,
                                seq![HALF][k],
                            )) is None;
                        assert(quantile_of(sorted@, weighted, ps@[i as int]) is None);
                    }
                }
                median = Some(values[i]);
            }
            Ok(
                (
                    median,
                    Some(
                        QuantileResult {
                            probabilities: copied(ps),
                            values,
                            method: METHOD,
                            weighting: if weighted {
                                BY_WEIGHT
                            } else {
                                BY_COVERAGE
                            },
                            exact_rank: true,
                        },
                    ),
                ),
            )
        },
    }
}

/// A sorting of samples.
pub open spec fn sorts(samples: Seq<Sample>, sorted: Seq<Sample>) -> bool {
    sorted.to_multiset() == samples.to_multiset() && in_order(sorted)
}

pub(crate) proof fn lemma_sorted_ok(samples: Seq<Sample>, sorted: Seq<Sample>)
    requires
        samples_ok(samples),
        sorts(samples, sorted),
    ensures
        samples_ok(sorted),
{
    broadcast use vstd::seq_lib::group_to_multiset_ensures;

    assert forall|i: int| 0 <= i < sorted.len() implies crate::quantiles::sample_ok(
        #[trigger] sorted[i],
    ) by {
        assert(sorted.contains(sorted[i]));
        assert(sorted.to_multiset().count(sorted[i]) > 0);
        assert(samples.contains(sorted[i]));
        let k = choose|k: int| 0 <= k < samples.len() && samples[k] == sorted[i];
        assert(crate::quantiles::sample_ok(samples[k]));
    }
}

impl Reducers {
    /// What the reduction comes to.
    #[verifier::rlimit(50)]
    pub fn finish<C: Cancel>(self, plain: MomentEnd, weighted: MomentEnd, cancel: &C) -> (r: Result<
        ReducerResult,
        Error,
    >)
        requires
            self.wf(),
        ensures
            cancel.always() ==> r is Err,
            r matches Err(e) && e == Error::Cancelled && self.error != Some(e) ==> !cancel.never(),
            match r {
                Err(e) => e != Error::Cancelled ==> match self.error {
                    Some(first) => e == first,
                    None => exists|sorted: Seq<Sample>| #[trigger]
                        sorts(self.samples@, sorted) && end_refusal(self, sorted, plain, weighted)
                            == Some(e),
                },
                Ok(out) => {
                    &&& self.error is None
                    &&& exists|sorted: Seq<Sample>| #[trigger]
                        sorts(self.samples@, sorted) && end_refusal(self, sorted, plain, weighted)
                            is None && ends_with(self, sorted, plain, weighted, out)
                },
            },
    {
        check_cancel(cancel)?;
        if let Some(e) = self.error {
            return Err(e);
        }
        let ghost whole = self;
        let mut sorted = self.samples;
        sort_samples(&mut sorted);
        proof {
            lemma_sorted_ok(whole.samples@, sorted@);
            assert(sorts(whole.samples@, sorted@));
        }
        let w = self.options.wanted;
        let diagnostics = diagnosed(&self.moments, &self.weighted_moments);
        let (variance, stddev) = finish_moments(&self.moments, w.variance, w.stddev, plain)?;
        let (weighted_variance, weighted_stddev) = finish_moments(
            &self.weighted_moments,
            w.weighted_variance,
            w.weighted_stddev,
            weighted,
        )?;
        let (categories, majority, variety) = finish_categories(self.categories, w)?;
        check_cancel(cancel)?;
        let (median, found) = finish_mode(&self.options, &sorted, false, cancel)?;
        let (weighted_median, weighted_found) = finish_mode(&self.options, &sorted, true, cancel)?;
        Ok(
            ReducerResult {
                moment_diagnostics: diagnostics,
                variance,
                stddev,
                weighted_variance,
                weighted_stddev,
                categories,
                majority,
                variety,
                median,
                quantiles: found,
                weighted_median,
                weighted_quantiles: weighted_found,
            },
        )
    }
}

} // verus!
