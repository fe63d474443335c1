//! Exact categorical support.
//!
//! Mass is an integer in units of 2^-1074 for binary64 coverage fractions. Unlike comparing
//! rounded totals, this preserves arbitrarily close ties.
use num_bigint::BigUint;
use vstd::arithmetic::power2::{lemma_pow2_pos, pow2};
use vstd::prelude::*;

use crate::category_laws::{fractions_are_parts_of_the_whole, fractions_hold};
use crate::dyadic::size_of_bits;
use crate::error::Error;
use crate::rational::{
    bit_length, natural, natural_above, natural_bits, natural_copy, natural_of, natural_shifted,
    natural_sum, nearest, quotient, to_double,
};
use crate::skv_header::{finite_bits, is_finite_bits};

verus! {

/// A mass has at most so many binary digits.
pub const MASS_BITS: u64 = 1152;

/// How ties of the majority are resolved.
pub const TIE_RULE: &'static str = "smallest_numeric_value";

/// Where a double stands in the total order of doubles, negative ones below positive ones.
pub open spec fn order_key(bits: u64) -> int {
    if bits >= 0x8000_0000_0000_0000 {
        0xffff_ffff_ffff_ffff - bits
    } else {
        bits + 0x8000_0000_0000_0000
    }
}

pub fn key_of(bits: u64) -> (r: u64)
    ensures
        r == order_key(bits),
{
    if bits >= 0x8000_0000_0000_0000 {
        0xffff_ffff_ffff_ffff - bits
    } else {
        bits + 0x8000_0000_0000_0000
    }
}

/// One zero for both.
pub open spec fn plain_zero(bits: u64) -> u64 {
    if bits == 0x8000_0000_0000_0000 {
        0
    } else {
        bits
    }
}

pub fn without_negative_zero(bits: u64) -> (r: u64)
    ensures
        r == plain_zero(bits),
{
    if bits == 0x8000_0000_0000_0000 {
        0
    } else {
        bits
    }
}

/// A domain rises in the total order, so that no value occurs twice.
pub open spec fn rising(domain: Seq<u64>) -> bool {
    forall|i: int, j: int|
        0 <= i < j < domain.len() ==> order_key(#[trigger] domain[i]) < order_key(
            #[trigger] domain[j],
        )
}

/// A coverage fraction: above zero, and at most one.
pub open spec fn coverage_bits(bits: u64) -> bool {
    0 < bits <= 0x3ff0_0000_0000_0000
}

/// The exact mass of one category.
pub struct CoverageMass {
    mass: BigUint,
}

impl CoverageMass {
    pub closed spec fn view(&self) -> nat {
        natural_of(self.mass)
    }

    pub fn new() -> (r: Self)
        ensures
            r@ == 0,
    {
        CoverageMass { mass: natural(0) }
    }

    fn duplicate(&self) -> (r: Self)
        ensures
            r@ == self@,
    {
        CoverageMass { mass: natural_copy(&self.mass) }
    }

    /// Add a coverage fraction.
    pub fn add(&mut self, f: u64) -> (r: Result<(), Error>)
        ensures
            match mass_with(old(self)@, f) {
                Ok(mass) => r is Ok && final(self)@ == mass,
                Err(e) => r == Err::<(), Error>(e) && final(self)@ == old(self)@,
            },
    {
        if f == 0 || f > 0x3ff0_0000_0000_0000 {
            return Err(Error::CategoryCoverage);
        }
        let field: u64 = f / 0x10_0000_0000_0000 % 2048;
        let rest: u64 = f % 0x10_0000_0000_0000;
        let term = if field == 0 {
            proof {
                vstd::arithmetic::power2::lemma2_to64();
                assert(rest * 1 == rest);
            }
            natural(rest)
        } else {
            natural_shifted(&natural(rest + 0x10_0000_0000_0000), (field - 1) as usize)
        };
        assert(natural_of(term) == size_of_bits(f));
        let sum = natural_sum(&self.mass, &term);
        if natural_bits(&sum) > MASS_BITS {
            return Err(Error::CategorySupport);
        }
        self.mass = sum;
        Ok(())
    }

    fn unite(&mut self, other: &Self) -> (r: Result<(), Error>)
        ensures
            match mass_of_both(old(self)@, other@) {
                Ok(mass) => r is Ok && final(self)@ == mass,
                Err(e) => r == Err::<(), Error>(e) && final(self)@ == old(self)@,
            },
    {
        let sum = natural_sum(&self.mass, &other.mass);
        if natural_bits(&sum) > MASS_BITS {
            return Err(Error::CategorySupport);
        }
        self.mass = sum;
        Ok(())
    }

    /// The mass in cells, as the bits of a double.
    pub fn value(&self) -> (r: Result<u64, Error>)
        ensures
            r == mass_value(self@),
    {
        proof {
            lemma_pow2_pos(1074);
            let p = pow2(1074) as int;
            assert(1 * p == p) by (nonlinear_arith);
        }
        let q = quotient(&self.mass, &natural_shifted(&natural(1), 1074));
        match to_double(&q) {
            Some(bits) => if is_finite_bits(bits) {
                Ok(bits)
            } else {
                Err(Error::NonfiniteCategory)
            },
            None => Err(Error::NonfiniteCategory),
        }
    }
}

/// A mass and a coverage fraction.
pub open spec fn mass_with(mass: nat, f: u64) -> Result<nat, Error> {
    if !coverage_bits(f) {
        Err(Error::CategoryCoverage)
    } else {
        mass_of_both(mass, size_of_bits(f))
    }
}

/// Two masses.
pub open spec fn mass_of_both(a: nat, b: nat) -> Result<nat, Error> {
    if bit_length(a + b) > MASS_BITS {
        Err(Error::CategorySupport)
    } else {
        Ok(a + b)
    }
}

/// A mass in cells.
pub open spec fn mass_value(mass: nat) -> Result<u64, Error> {
    match nearest((mass as real) / (pow2(1074) as real)) {
        Some(bits) => if finite_bits(bits) {
            Ok(bits)
        } else {
            Err(Error::NonfiniteCategory)
        },
        None => Err(Error::NonfiniteCategory),
    }
}

/// The masses of the categories of a domain.
pub struct Categories {
    pub domain: Vec<u64>,
    pub support: Vec<CoverageMass>,
}

/// The masses of the categories, one by one.
pub open spec fn masses(support: Seq<CoverageMass>) -> Seq<nat> {
    Seq::new(support.len(), |i: int| support[i]@)
}

/// A value of the domain, by its place.
pub open spec fn place_in(domain: Seq<u64>, value: u64, i: int) -> bool {
    0 <= i < domain.len() && domain[i] == value
}

/// The masses with one more covered value.
pub open spec fn counted(domain: Seq<u64>, m: Seq<nat>, value: u64, f: u64) -> Result<
    Seq<nat>,
    Error,
> {
    if !domain.contains(plain_zero(value)) {
        Err(Error::CategoryValue)
    } else {
        let i = domain.index_of(plain_zero(value));
        match mass_with(m[i], f) {
            Ok(mass) => Ok(m.update(i, mass)),
            Err(e) => Err(e),
        }
    }
}

/// The masses of two supports together.
pub open spec fn both_masses(a: Seq<nat>, b: Seq<nat>) -> Result<Seq<nat>, Error> {
    if exists|i: int| 0 <= i < a.len() && #[trigger] bit_length(a[i] + b[i]) > MASS_BITS {
        Err(Error::CategorySupport)
    } else {
        Ok(Seq::new(a.len(), |i: int| a[i] + b[i]))
    }
}

/// No value of a rising domain has a second place.
proof fn lemma_place(domain: Seq<u64>, value: u64, i: int)
    requires
        rising(domain),
        place_in(domain, value, i),
    ensures
        domain.contains(value),
        domain.index_of(value) == i,
{
    assert(domain[i] == value);
    let j = domain.index_of(value);
    assert(0 <= j < domain.len() && domain[j] == value);
    if i < j {
        assert(order_key(domain[i]) < order_key(domain[j]));
    } else if j < i {
        assert(order_key(domain[j]) < order_key(domain[i]));
    }
}

/// The sum of the first `n` masses.
pub open spec fn mass_sum(m: Seq<nat>, n: int) -> nat
    decreases n,
{
    if n <= 0 {
        0
    } else {
        mass_sum(m, n - 1) + m[n - 1]
    }
}

/// The place of the first of the greatest masses among the first `n`; none where all are zero.
pub open spec fn leader(m: Seq<nat>, n: int) -> Option<int>
    decreases n,
{
    if n <= 0 {
        None
    } else {
        let best = leader(m, n - 1);
        let held = match best {
            Some(i) => m[i],
            None => 0,
        };
        if m[n - 1] > held {
            Some(n - 1)
        } else {
            best
        }
    }
}

/// How many of the first `n` masses are not zero.
pub open spec fn seen(m: Seq<nat>, n: int) -> nat
    decreases n,
{
    if n <= 0 {
        0
    } else {
        seen(m, n - 1) + if m[n - 1] > 0 {
            1nat
        } else {
            0
        }
    }
}

/// The share of a category, as the bits of a double; none where there is no mass at all.
pub open spec fn share_of(mass: nat, total: nat) -> Result<Option<u64>, Error> {
    if total == 0 {
        Ok(None)
    } else {
        match nearest((mass as real) / (total as real)) {
            Some(bits) => Ok(Some(bits)),
            None => Err(Error::CategoryFraction),
        }
    }
}

/// The counts of the first `n` categories, or the first failure.
pub open spec fn counts_to(m: Seq<nat>, n: int) -> Result<Seq<(u64, Option<u64>)>, Error>
    decreases n,
{
    if n <= 0 {
        Ok(Seq::empty())
    } else {
        match counts_to(m, n - 1) {
            Err(e) => Err(e),
            Ok(s) => match mass_value(m[n - 1]) {
                Err(e) => Err(e),
                Ok(count) => match share_of(m[n - 1], mass_sum(m, m.len() as int)) {
                    Err(e) => Err(e),
                    Ok(share) => Ok(s.push((count, share))),
                },
            },
        }
    }
}

/// What the categories come to.
pub struct CategoryResult {
    pub values: Vec<u64>,
    pub covered_cell_equivalents: Vec<u64>,
    pub fractions: Vec<Option<u64>>,
    pub tie_rule: &'static str,
}

pub struct CategoryEnd {
    pub result: CategoryResult,
    pub majority: Option<u64>,
    pub variety: usize,
}

/// A result holds the counts and the shares of the categories.
pub open spec fn holds_counts(r: CategoryResult, s: Seq<(u64, Option<u64>)>) -> bool {
    &&& r.covered_cell_equivalents@.len() == s.len()
    &&& r.fractions@.len() == s.len()
    &&& forall|i: int|
        0 <= i < s.len() ==> r.covered_cell_equivalents@[i] == (#[trigger] s[i]).0
            && r.fractions@[i] == s[i].1
}

impl Categories {
    pub open spec fn wf(&self) -> bool {
        self.domain@.len() == self.support@.len() && rising(self.domain@)
    }

    pub fn new(values: &Vec<u64>) -> (r: Self)
        requires
            rising(values@.map_values(|v: u64| plain_zero(v))),
        ensures
            r.wf(),
            r.domain@ == values@.map_values(|v: u64| plain_zero(v)),
            masses(r.support@) == Seq::new(values@.len(), |i: int| 0nat),
    {
        let mut domain: Vec<u64> = Vec::new();
        let mut support: Vec<CoverageMass> = Vec::new();
        let mut i: usize = 0;
        while i < values.len()
            invariant
                i <= values@.len(),
                domain@.len() == i,
                support@.len() == i,
                forall|k: int| 0 <= k < i ==> #[trigger] domain@[k] == plain_zero(values@[k]),
                forall|k: int| 0 <= k < i ==> (#[trigger] support@[k])@ == 0,
            decreases values.len() - i,
        {
            domain.push(without_negative_zero(values[i]));
            support.push(CoverageMass::new());
            i += 1;
        }
        assert(domain@ =~= values@.map_values(|v: u64| plain_zero(v)));
        assert(masses(support@) =~= Seq::new(values@.len(), |i: int| 0nat));
        Categories { domain, support }
    }

    /// The place of a value in the domain.
    fn place(&self, value: u64) -> (r: Option<usize>)
        requires
            self.wf(),
        ensures
            match r {
                Some(i) => place_in(self.domain@, value, i as int),
                None => !self.domain@.contains(value),
            },
    {
        let key: u64 = key_of(value);
        let mut lo: usize = 0;
        let mut hi: usize = self.domain.len();
        while lo < hi
            invariant
                self.wf(),
                key == order_key(value),
                lo <= hi <= self.domain@.len(),
                forall|k: int| 0 <= k < lo ==> order_key(#[trigger] self.domain@[k]) < key,
                forall|k: int|
                    hi <= k < self.domain@.len() ==> order_key(#[trigger] self.domain@[k]) > key,
            decreases hi - lo,
        {
            let mid: usize = lo + (hi - lo) / 2;
            let at: u64 = key_of(self.domain[mid]);
            if at == key {
                return Some(mid);
            }
            if at < key {
                lo = mid + 1;
            } else {
                hi = mid;
            }
        }
        None
    }

    /// Count a covered value.
    pub fn add(&mut self, value: u64, f: u64) -> (r: Result<(), Error>)
        requires
            old(self).wf(),
        ensures
            final(self).wf(),
            final(self).domain@ == old(self).domain@,
            match counted(old(self).domain@, masses(old(self).support@), value, f) {
                Ok(m) => r is Ok && masses(final(self).support@) == m,
                Err(e) => r == Err::<(), Error>(e) && masses(final(self).support@) == masses(
                    old(self).support@,
                ),
            },
    {
        let value: u64 = without_negative_zero(value);
        match self.place(value) {
            None => Err(Error::CategoryValue),
            Some(i) => {
                proof {
                    lemma_place(self.domain@, value, i as int);
                }
                let mut mass = self.support[i].duplicate();
                match mass.add(f) {
                    Err(e) => Err(e),
                    Ok(()) => {
                        self.support.set(i, mass);
                        assert(masses(self.support@) =~= masses(old(self).support@).update(
                            i as int,
                            mass@,
                        ));
                        Ok(())
                    },
                }
            },
        }
    }

    fn same_domain(&self, other: &Self) -> (r: bool)
        ensures
            r == (self.domain@ == other.domain@),
    {
        if self.domain.len() != other.domain.len() {
            return false;
        }
        let mut i: usize = 0;
        while i < self.domain.len()
            invariant
                self.domain@.len() == other.domain@.len(),
                i <= self.domain@.len(),
                forall|k: int| 0 <= k < i ==> #[trigger] self.domain@[k] == other.domain@[k],
            decreases self.domain.len() - i,
        {
            if self.domain[i] != other.domain[i] {
                return false;
            }
            i += 1;
        }
        assert(self.domain@ =~= other.domain@);
        true
    }

    /// Add the masses of categories over the same domain.
    pub fn merge(&mut self, rhs: &Self) -> (r: Result<(), Error>)
        requires
            old(self).wf(),
            rhs.wf(),
        ensures
            final(self).wf(),
            final(self).domain@ == old(self).domain@,
            if old(self).domain@ != rhs.domain@ {
                r == Err::<(), Error>(Error::CategoryDomain) && final(self).support@
                    == old(self).support@
            } else {
                match both_masses(masses(old(self).support@), masses(rhs.support@)) {
                    Ok(m) => r is Ok && masses(final(self).support@) == m,
                    Err(e) => r == Err::<(), Error>(e),
                }
            },
    {
        if !self.same_domain(rhs) {
            return Err(Error::CategoryDomain);
        }
        let ghost a = masses(self.support@);
        let ghost b = masses(rhs.support@);
        let total: usize = self.support.len();
        let mut i: usize = 0;
        while i < total
            invariant
                self.wf(),
                rhs.wf(),
                self.domain@ == old(self).domain@,
                self.domain@ == rhs.domain@,
                total == self.support@.len(),
                total == a.len(),
                b == masses(rhs.support@),
                a == masses(old(self).support@),
                i <= total,
                forall|k: int| 0 <= k < i ==> (#[trigger] self.support@[k])@ == a[k] + b[k],
                forall|k: int| i <= k < total ==> (#[trigger] self.support@[k])@ == a[k],
                forall|k: int| 0 <= k < i ==> #[trigger] bit_length(a[k] + b[k]) <= MASS_BITS,
            decreases total - i,
        {
            let mut mass = self.support[i].duplicate();
            match mass.unite(&rhs.support[i]) {
                Err(e) => {
                    assert(bit_length(a[i as int] + b[i as int]) > MASS_BITS);
                    return Err(e);
                },
                Ok(()) => {
                    assert(bit_length(a[i as int] + b[i as int]) <= MASS_BITS);
                },
            }
            self.support.set(i, mass);
            i += 1;
        }
        assert(masses(self.support@) =~= Seq::new(a.len(), |i: int| a[i] + b[i]));
        Ok(())
    }

    fn total(&self) -> (r: BigUint)
        ensures
            natural_of(r) == mass_sum(masses(self.support@), self.support@.len() as int),
    {
        let ghost m = masses(self.support@);
        let mut sum = natural(0);
        let mut i: usize = 0;
        while i < self.support.len()
            invariant
                m == masses(self.support@),
                i <= self.support@.len(),
                natural_of(sum) == mass_sum(m, i as int),
            decreases self.support.len() - i,
        {
            assert(m[i as int] == self.support@[i as int]@);
            sum = natural_sum(&sum, &self.support[i].mass);
            i += 1;
        }
        sum
    }

    /// What the categories come to: the count and the share of each, the majority and the variety.
    pub fn finish(self) -> (r: Result<CategoryEnd, Error>)
        requires
            self.wf(),
        ensures
            ({
                let m = masses(self.support@);
                let n = m.len() as int;
                match counts_to(m, n) {
                    Err(e) => r == Err::<CategoryEnd, Error>(e),
                    Ok(counts) => {
                        &&& r matches Ok(end)
                        &&& end.result.values@ == self.domain@
                        &&& holds_counts(end.result, counts)
                        &&& end.result.tie_rule@ == TIE_RULE@
                        &&& end.majority == match leader(m, n) {
                            Some(i) => Some(self.domain@[i]),
                            None => None,
                        }
                        &&& end.variety == seen(m, n)
                        &&& fractions_hold(m, end.result.fractions@)
                    },
                }
            }),
    {
        let ghost m = masses(self.support@);
        let total = self.total();
        let none = natural(0);
        let count: usize = self.domain.len();
        let mut best: Option<usize> = None;
        let mut held = natural(0);
        let mut variety: usize = 0;
        let mut counts: Vec<u64> = Vec::new();
        let mut fractions: Vec<Option<u64>> = Vec::new();
        let ghost mut listed: Seq<(u64, Option<u64>)> = Seq::empty();
        let mut i: usize = 0;
        while i < count
            invariant
                self.wf(),
                m == masses(self.support@),
                count == m.len(),
                count == self.domain@.len(),
                i <= count,
                natural_of(none) == 0,
                natural_of(total) == mass_sum(m, m.len() as int),
                counts_to(m, i as int) == Ok::<Seq<(u64, Option<u64>)>, Error>(listed),
                listed.len() == i,
                counts@.len() == i,
                fractions@.len() == i,
                forall|k: int|
                    0 <= k < i ==> counts@[k] == (#[trigger] listed[k]).0 && fractions@[k]
                        == listed[k].1,
                variety == seen(m, i as int),
                variety <= i,
                match best {
                    Some(k) => k < i && leader(m, i as int) == Some(k as int) && natural_of(held)
                        == m[k as int],
                    None => leader(m, i as int) is None && natural_of(held) == 0,
                },
            decreases count - i,
        {
            let support = &self.support[i];
            assert(m[i as int] == support@);
            if natural_above(&support.mass, &none) {
                variety += 1;
            }
            if natural_above(&support.mass, &held) {
                held = natural_copy(&support.mass);
                best = Some(i);
            }
            let value: u64 = match support.value() {
                Ok(value) => value,
                Err(e) => {
                    proof {
                        lemma_counts_fail(m, i + 1, count as int, e);
                    }
                    return Err(e);
                },
            };
            let share: Option<u64> = if !natural_above(&total, &none) {
                None
            } else {
                match to_double(&quotient(&support.mass, &total)) {
                    Some(bits) => Some(bits),
                    None => {
                        proof {
                            lemma_counts_fail(m, i + 1, count as int, Error::CategoryFraction);
                        }
                        return Err(Error::CategoryFraction);
                    },
                }
            };
            counts.push(value);
            fractions.push(share);
            proof {
                listed = listed.push((value, share));
            }
            i += 1;
        }
        let majority: Option<u64> = match best {
            Some(k) => Some(self.domain[k]),
            None => None,
        };
        let result = CategoryResult {
            values: self.domain,
            covered_cell_equivalents: counts,
            fractions,
            tie_rule: TIE_RULE,
        };
        proof {
            fractions_are_parts_of_the_whole(m, result);
        }
        Ok(CategoryEnd { result, majority, variety })
    }
}

proof fn lemma_counts_fail(m: Seq<nat>, i: int, n: int, e: Error)
    requires
        i <= n,
        counts_to(m, i) == Err::<Seq<(u64, Option<u64>)>, Error>(e),
    ensures
        counts_to(m, n) == Err::<Seq<(u64, Option<u64>)>, Error>(e),
    decreases n - i,
{
    if i < n {
        lemma_counts_fail(m, i + 1, n, e);
    }
}

/// The majority has the greatest mass, and the smallest value among those that have it.
pub proof fn the_leader_has_the_greatest_mass(m: Seq<nat>, n: int, k: int)
    requires
        0 <= k < n <= m.len(),
    ensures
        match leader(m, n) {
            Some(i) => 0 <= i < n && m[i] > 0 && m[k] <= m[i] && (k < i ==> m[k] < m[i]),
            None => m[k] == 0,
        },
{
    lemma_leader(m, n);
    lemma_below(m, n, k);
}

proof fn lemma_leader(m: Seq<nat>, n: int)
    requires
        0 <= n <= m.len(),
    ensures
        match leader(m, n) {
            Some(i) => 0 <= i < n && m[i] > 0,
            None => true,
        },
    decreases n,
{
    if n > 0 {
        lemma_leader(m, n - 1);
    }
}

proof fn lemma_below(m: Seq<nat>, n: int, k: int)
    requires
        0 <= k < n <= m.len(),
    ensures
        match leader(m, n) {
            Some(i) => m[k] <= m[i] && (k < i ==> m[k] < m[i]),
            None => m[k] == 0,
        },
    decreases n,
{
    lemma_leader(m, n - 1);
    if k < n - 1 {
        lemma_below(m, n - 1, k);
    }
}

} // verus!
