//! Transient exact dyadic row prefixes and requested-statistic range extrema.
//!
//! This is an opt-in execution helper, not persisted source preparation. A
//! rejected row or range must use the ordinary raw contribution path. Prefix
//! subtraction is integer-exact: a tiny interval never subtracts rounded large
//! floating prefixes. Established fixed-point accumulator / prefix-sum ideas.
use vstd::arithmetic::power2::{lemma_pow2_adds, lemma_pow2_pos, pow2};
use vstd::prelude::*;

use crate::dyadic::{
    at_place, doubled, dyadic, exact_sum, field_of, head_of, lemma_grows, lemma_powers, lemma_twice, placed,
    magnitude_of, negative, place_of, representable, size_of_bits, units, COEFFICIENT_LIMIT,
};
use crate::range_schedule::word;
use crate::skv_header::finite_bits;

verus! {

/// A row helper must fit this bound as well as its caller's live memory budget.
pub const MAX_ROW_BYTES: usize = 67108864;

/// The bits of positive infinity, the least of no values.
pub const INFINITY: u64 = 0x7ff0_0000_0000_0000;

/// The bits of negative infinity, the greatest of no values.
pub const NEG_INFINITY: u64 = 0xfff0_0000_0000_0000;

/// Where a double stands in the order of doubles. Both zeros stand at zero.
pub open spec fn rank(bits: u64) -> int {
    if negative(bits) {
        0x8000_0000_0000_0000 - bits
    } else {
        bits as int
    }
}

proof fn lemma_size_grows(x: u64, y: u64)
    requires
        x < y < 0x7ff0_0000_0000_0000,
    ensures
        size_of_bits(x) < size_of_bits(y),
{
    lemma_powers();
    let px = place_of(x);
    let py = place_of(y);
    let a = pow2(px) as int;
    let b = pow2(py) as int;
    let mx = magnitude_of(x) as int;
    let my = magnitude_of(y) as int;
    lemma_pow2_pos(px);
    lemma_pow2_pos(py);
    if field_of(x) == field_of(y) {
        assert(mx * a < my * a) by (nonlinear_arith)
            requires
                mx < my,
                a >= 1,
        ;
    } else if field_of(x) == 0 {
        assert(mx * a < my * b) by (nonlinear_arith)
            requires
                0 <= mx < 0x10_0000_0000_0000 <= my,
                a == 1,
                b >= 1,
        ;
    } else {
        lemma_twice(px);
        lemma_grows(px + 1, py);
        assert(mx * a < my * b) by (nonlinear_arith)
            requires
                0 <= mx < 0x20_0000_0000_0000,
                my >= 0x10_0000_0000_0000,
                b >= 2 * a,
                a >= 1,
        ;
    }
}

/// The sign of a double has no part in its size.
proof fn lemma_unsigned(x: u64)
    requires
        finite_bits(x),
    ensures
        size_of_bits(x) == size_of_bits(x % 0x8000_0000_0000_0000),
        x % 0x8000_0000_0000_0000 < 0x7ff0_0000_0000_0000,
        rank(x) == (if negative(x) {
            -(x % 0x8000_0000_0000_0000)
        } else {
            (x % 0x8000_0000_0000_0000) as int
        }),
{
    let a = x % 0x8000_0000_0000_0000;
    assert(field_of(x) == field_of(a));
    assert(x % 0x10_0000_0000_0000 == a % 0x10_0000_0000_0000);
    assert(magnitude_of(x) == magnitude_of(a));
    assert(place_of(x) == place_of(a));
}

/// Finite doubles stand in the order of their values.
pub proof fn ranks_order_values(x: u64, y: u64)
    requires
        finite_bits(x),
        finite_bits(y),
    ensures
        (rank(x) < rank(y)) == (units(x) < units(y)),
        (rank(x) == rank(y)) == (units(x) == units(y)),
{
    let a = x % 0x8000_0000_0000_0000;
    let b = y % 0x8000_0000_0000_0000;
    lemma_unsigned(x);
    lemma_unsigned(y);
    if a < b {
        lemma_size_grows(a, b);
    } else if b < a {
        lemma_size_grows(b, a);
    }
    lemma_zero(a);
    lemma_zero(b);
}

proof fn lemma_zero(a: u64)
    requires
        a < 0x7ff0_0000_0000_0000,
    ensures
        (a == 0) == (size_of_bits(a) == 0),
{
    if a > 0 {
        lemma_size_grows(0, a);
    } else {
        let p = pow2(place_of(a)) as int;
        assert(0 * p == 0) by (nonlinear_arith);
    }
}

/// Whether one double stands before another.
fn before(a: u64, b: u64) -> (r: bool)
    ensures
        r == (rank(a) < rank(b)),
{
    let na = a >= 0x8000_0000_0000_0000;
    let nb = b >= 0x8000_0000_0000_0000;
    if na && nb {
        a > b
    } else if na {
        a > 0x8000_0000_0000_0000 || b > 0
    } else if nb {
        false
    } else {
        a < b
    }
}

/// The present values of a row: the bits of each, where it is valid.
pub open spec fn row_of(values: Seq<u64>, valid: Seq<bool>, begin: int, width: int) -> Seq<
    Option<u64>,
> {
    Seq::new(
        width as nat,
        |i: int|
            if valid[begin + i] {
                Some(values[begin + i])
            } else {
                None
            },
    )
}

/// The value of a cell, in units of 2^-1074; nothing where it is not present.
pub open spec fn cell_units(cell: Option<u64>) -> int {
    match cell {
        Some(bits) => units(bits),
        None => 0,
    }
}

pub open spec fn cell_size(cell: Option<u64>) -> int {
    match cell {
        Some(bits) => size_of_bits(bits) as int,
        None => 0,
    }
}

/// The exact sum of the present values of a range.
pub open spec fn total(row: Seq<Option<u64>>, lo: int, hi: int) -> int
    decreases hi - lo,
{
    if hi <= lo {
        0
    } else {
        total(row, lo, hi - 1) + cell_units(row[hi - 1])
    }
}

/// The sum of the sizes of the first present values.
pub open spec fn absolute(row: Seq<Option<u64>>, hi: int) -> int
    decreases hi,
{
    if hi <= 0 {
        0
    } else {
        absolute(row, hi - 1) + cell_size(row[hi - 1])
    }
}

/// How many values of a range are present.
pub open spec fn present(row: Seq<Option<u64>>, lo: int, hi: int) -> int
    decreases hi - lo,
{
    if hi <= lo {
        0
    } else {
        present(row, lo, hi - 1) + if row[hi - 1] is Some {
            1int
        } else {
            0
        }
    }
}

pub open spec fn lower(a: int, b: int) -> int {
    if b < a {
        b
    } else {
        a
    }
}

/// The better of two ranks: the greater one where the greatest value is wanted, else the lower.
pub open spec fn pick(up: bool, a: int, b: int) -> int {
    if up {
        if b > a {
            b
        } else {
            a
        }
    } else {
        lower(a, b)
    }
}

/// What no value counts as.
pub open spec fn nothing(up: bool) -> u64 {
    if up {
        NEG_INFINITY
    } else {
        INFINITY
    }
}

/// The rank of a cell, or of nothing.
pub open spec fn leaf(up: bool, row: Seq<Option<u64>>, i: int) -> int {
    if 0 <= i < row.len() && row[i] is Some {
        rank(row[i]->0)
    } else {
        rank(nothing(up))
    }
}

/// Where the greatest or the least present value of a range stands.
pub open spec fn extreme(up: bool, row: Seq<Option<u64>>, lo: int, hi: int) -> int
    decreases hi - lo,
{
    if hi <= lo {
        rank(nothing(up))
    } else {
        pick(up, extreme(up, row, lo, hi - 1), leaf(up, row, hi - 1))
    }
}

pub open spec fn cell_ok(cell: Option<u64>) -> bool {
    match cell {
        Some(bits) => finite_bits(bits),
        None => true,
    }
}

/// Every present value is finite.
pub open spec fn finite_row(row: Seq<Option<u64>>) -> bool {
    forall|i: int| 0 <= i < row.len() ==> cell_ok(#[trigger] row[i])
}

/// How often a number can be halved.
pub open spec fn twos(n: nat) -> nat
    decreases n,
{
    if n == 0 || n % 2 == 1 {
        0
    } else {
        1 + twos(n / 2)
    }
}

proof fn lemma_twos(odd: nat, k: nat)
    requires
        odd % 2 == 1,
    ensures
        twos(odd * pow2(k)) == k,
    decreases k,
{
    lemma_powers();
    if k > 0 {
        lemma_twice((k - 1) as nat);
        lemma_twos(odd, (k - 1) as nat);
        let p = pow2((k - 1) as nat) as int;
        let o = odd as int;
        assert(o * (2 * p) == 2 * (o * p)) by (nonlinear_arith);
        assert(o * p >= 1) by (nonlinear_arith)
            requires
                o >= 1,
                p >= 1,
        ;
    } else {
        assert(odd * 1 == odd);
    }
}

/// The binary place of the last digit of any present value that is not zero: the lowest among
/// the first `n`, or none.
pub open spec fn lowest_place(row: Seq<Option<u64>>, n: int) -> Option<int>
    decreases n,
{
    if n <= 0 {
        None
    } else {
        let rest = lowest_place(row, n - 1);
        let size = cell_size(row[n - 1]);
        if size == 0 {
            rest
        } else {
            let place = twos(size as nat) - 1074;
            match rest {
                Some(other) => Some(lower(other, place)),
                None => Some(place),
            }
        }
    }
}

/// The common binary place of a row.
pub open spec fn place_of_row(row: Seq<Option<u64>>) -> int {
    match lowest_place(row, row.len() as int) {
        Some(place) => place,
        None => 0,
    }
}

/// The exact prefixes of the first `n` values stay within the coefficient limit.
pub open spec fn sums_fit(row: Seq<Option<u64>>, n: int) -> bool {
    absolute(row, n) <= at_place(COEFFICIENT_LIMIT as int, place_of_row(row))
}

/// Which statistics a row helper serves. Rows of other statistics are not eligible.
#[derive(Clone, Copy, Debug, PartialEq, Eq, Structural)]
pub struct RowOptions {
    pub eligible: bool,
    pub sum: bool,
    pub min: bool,
    pub max: bool,
    /// Bytes of the helper beside its lists.
    pub fixed_bytes: usize,
}

/// The least power of two that is not below `n`.
pub open spec fn next_power(n: int) -> int
    decreases n,
{
    if n <= 1 {
        1
    } else {
        2 * next_power((n + 1) / 2)
    }
}

proof fn lemma_next_power(n: int)
    requires
        n >= 1,
    ensures
        n <= next_power(n) < 2 * n,
        exists|k: nat| next_power(n) == #[trigger] pow2(k),
    decreases n,
{
    lemma_powers();
    if n <= 1 {
        assert(next_power(n) == pow2(0));
    } else {
        lemma_next_power((n + 1) / 2);
        let k = choose|k: nat| next_power((n + 1) / 2) == #[trigger] pow2(k);
        lemma_twice(k);
        assert(next_power(n) == pow2(k + 1));
    }
}

/// Bytes of the lists of a row helper, and of the helper itself.
pub open spec fn row_bytes(width: int, o: RowOptions) -> int {
    let extrema = (if o.min {
        1int
    } else {
        0
    }) + if o.max {
        1int
    } else {
        0
    };
    (width + 1) * word() + o.fixed_bytes + (if o.sum {
        (width + 1) * 16
    } else {
        0
    }) + next_power(width) * 16 * extrema
}

/// A row that a helper may serve.
pub open spec fn row_fits(width: int, o: RowOptions) -> bool {
    width > 0 && o.eligible && row_bytes(width, o) <= MAX_ROW_BYTES
}

fn power_above(n: usize) -> (r: usize)
    requires
        1 <= n <= MAX_ROW_BYTES,
    ensures
        r == next_power(n as int),
        n <= r < 2 * n,
    decreases n,
{
    if n <= 1 {
        1
    } else {
        2 * power_above((n + 1) / 2)
    }
}

fn measured(width: usize, o: RowOptions) -> (r: Option<usize>)
    ensures
        r == (if row_fits(width as int, o) {
            Some(row_bytes(width as int, o) as usize)
        } else {
            None
        }),
{
    if width == 0 || !o.eligible {
        return None;
    }
    proof {
        lemma_next_power(width as int);
    }
    let ghost w = width as int;
    let ghost np = next_power(w);
    proof {
        assert((w + 1) * word() >= w) by (nonlinear_arith)
            requires
                w >= 0,
                word() >= 1,
        ;
        assert(np * 16 * 1 == 16 * np && np * 16 * 2 == 32 * np && np * 16 * 0 == 0)
            by (nonlinear_arith);
    }
    if width > MAX_ROW_BYTES || o.fixed_bytes > MAX_ROW_BYTES {
        return None;
    }
    let unit: u64 = (usize::BITS / 8) as u64;
    assert(unit == word());
    let entries: u64 = width as u64 + 1;
    proof {
        assert(0 <= entries * unit <= (MAX_ROW_BYTES + 1) * 8) by (nonlinear_arith)
            requires
                0 <= entries <= MAX_ROW_BYTES + 1,
                0 <= unit <= 8,
        ;
    }
    let mut bytes: u64 = entries * unit + o.fixed_bytes as u64;
    if o.sum {
        bytes = bytes + entries * 16;
    }
    let above: u64 = power_above(width) as u64;
    if o.min {
        bytes = bytes + above * 16;
    }
    if o.max {
        bytes = bytes + above * 16;
    }
    if bytes <= MAX_ROW_BYTES as u64 {
        Some(bytes as usize)
    } else {
        None
    }
}

/// Each inner node of a tree is the better of its two children, and each leaf a cell.
pub open spec fn is_tree(up: bool, tree: Seq<u64>, row: Seq<Option<u64>>, base: int) -> bool {
    &&& tree.len() == 2 * base
    &&& forall|i: int| 0 <= i < base ==> rank(#[trigger] tree[base + i]) == leaf(up, row, i)
    &&& forall|i: int| 1 <= i < base ==> #[trigger] node_ok(up, tree, i)
}

pub open spec fn node_ok(up: bool, tree: Seq<u64>, i: int) -> bool {
    rank(tree[i]) == pick(up, rank(tree[2 * i]), rank(tree[2 * i + 1]))
}

proof fn lemma_split(up: bool, row: Seq<Option<u64>>, lo: int, mid: int, hi: int)
    requires
        lo <= mid <= hi,
        finite_row(row),
    ensures
        extreme(up, row, lo, hi) == pick(up, extreme(up, row, lo, mid), extreme(up, row, mid, hi)),
        pick(up, rank(nothing(up)), extreme(up, row, lo, hi)) == extreme(up, row, lo, hi),
        pick(up, extreme(up, row, lo, hi), rank(nothing(up))) == extreme(up, row, lo, hi),
    decreases hi - lo,
{
    if lo < hi {
        assert(0 <= hi - 1 < row.len() ==> cell_ok(row[hi - 1]));
        if mid < hi {
            lemma_split(up, row, lo, mid, hi - 1);
        } else {
            lemma_split(up, row, lo, mid - 1, hi - 1);
        }
    }
}

/// A node stands for the cells below it.
proof fn lemma_node(up: bool, tree: Seq<u64>, row: Seq<Option<u64>>, base: int, level: nat, i: int)
    requires
        is_tree(up, tree, row, base),
        finite_row(row),
        base >= 1,
        base <= i * pow2(level) < 2 * base,
        base <= i * pow2(level) + (pow2(level) - 1) < 2 * base,
    ensures
        0 <= i < 2 * base,
        rank(tree[i]) == extreme(
            up,
            row,
            i * pow2(level) - base,
            i * pow2(level) + pow2(level) - base,
        ),
    decreases level,
{
    lemma_powers();
    lemma_pow2_pos(level);
    let p = pow2(level) as int;
    assert(0 <= i && i <= i * p) by (nonlinear_arith)
        requires
            i * p >= 1,
            p >= 1,
    ;
    if level == 0 {
        assert(i * 1 == i);
        let k = i - base;
        assert(rank(tree[base + k]) == leaf(up, row, k));
        lemma_split(up, row, k, k, k);
        assert(extreme(up, row, k, k + 1) == pick(up, extreme(up, row, k, k), leaf(up, row, k)));
        assert(0 <= k < row.len() ==> cell_ok(row[k]));
    } else {
        let l = (level - 1) as nat;
        lemma_twice(l);
        let q = pow2(l) as int;
        assert((2 * i) * q == i * p && (2 * i + 1) * q == i * p + q) by (nonlinear_arith)
            requires
                p == 2 * q,
        ;
        lemma_node(up, tree, row, base, l, 2 * i);
        lemma_node(up, tree, row, base, l, 2 * i + 1);
        assert(i < base) by (nonlinear_arith)
            requires
                i * p < 2 * base,
                p >= 2,
                i >= 0,
        ;
        assert(i >= 1) by (nonlinear_arith)
            requires
                i * p >= base,
                base >= 1,
                p >= 1,
                i >= 0,
        ;
        assert(node_ok(up, tree, i));
        lemma_split(up, row, i * p - base, i * p + q - base, i * p + p - base);
    }
}

/// The better of two doubles.
fn better(up: bool, a: u64, b: u64) -> (r: u64)
    ensures
        rank(r) == pick(up, rank(a), rank(b)),
{
    if up {
        if before(a, b) {
            b
        } else {
            a
        }
    } else {
        if before(b, a) {
            b
        } else {
            a
        }
    }
}

/// The tree of the extremes of a row, over `base` leaves.
fn build_tree(up: bool, values: &[u64], valid: &[bool], begin: usize, width: usize, base: usize) -> (r:
    Vec<u64>)
    requires
        begin + width <= values@.len(),
        values@.len() == valid@.len(),
        width <= base,
        1 <= base <= 2 * MAX_ROW_BYTES,
    ensures
        is_tree(up, r@, row_of(values@, valid@, begin as int, width as int), base as int),
{
    let ghost row = row_of(values@, valid@, begin as int, width as int);
    let empty: u64 = if up {
        NEG_INFINITY
    } else {
        INFINITY
    };
    let limit: usize = values.len();
    let mut tree: Vec<u64> = vec![empty; base * 2];
    let mut i: usize = 0;
    while i < width
        invariant
            i <= width <= base,
            limit == values@.len(),
            begin + width <= limit,
            values@.len() == valid@.len(),
            empty == nothing(up),
            row == row_of(values@, valid@, begin as int, width as int),
            tree@.len() == 2 * base,
            1 <= base <= 2 * MAX_ROW_BYTES,
            forall|k: int| 0 <= k < i ==> rank(#[trigger] tree@[base + k]) == leaf(up, row, k),
            forall|k: int| i <= k < base ==> #[trigger] tree@[base + k] == empty,
        decreases width - i,
    {
        if valid[begin + i] {
            tree.set(base + i, values[begin + i]);
        } else {
            assert(tree@[base + i] == empty);
        }
        i += 1;
    }
    assert forall|k: int| 0 <= k < base implies rank(#[trigger] tree@[base + k]) == leaf(
        up,
        row,
        k,
    ) by {}
    let mut j: usize = base;
    while j > 1
        invariant
            1 <= j <= base,
            tree@.len() == 2 * base,
            base <= 2 * MAX_ROW_BYTES,
            forall|k: int| 0 <= k < base ==> rank(#[trigger] tree@[base + k]) == leaf(up, row, k),
            forall|k: int| j <= k < base ==> #[trigger] node_ok(up, tree@, k),
        decreases j,
    {
        j -= 1;
        let ghost before_it = tree@;
        let v: u64 = better(up, tree[2 * j], tree[2 * j + 1]);
        tree.set(j, v);
        proof {
            assert forall|k: int| j <= k < base implies #[trigger] node_ok(up, tree@, k) by {
                if k > j {
                    assert(node_ok(up, before_it, k));
                }
            }
            assert forall|k: int| 0 <= k < base implies rank(#[trigger] tree@[base + k]) == leaf(
                up,
                row,
                k,
            ) by {
                assert(before_it[base + k] == tree@[base + k]);
            }
        }
    }
    tree
}

/// The extreme of a range of a row.
fn query_tree(up: bool, tree: &Vec<u64>, row: Ghost<Seq<Option<u64>>>, base: usize, start: usize, end:
    usize) -> (r: u64)
    requires
        is_tree(up, tree@, row@, base as int),
        finite_row(row@),
        exists|k: nat| base == #[trigger] pow2(k),
        start <= end <= base,
        1 <= base <= 2 * MAX_ROW_BYTES,
    ensures
        rank(r) == extreme(up, row@, start as int, end as int),
{
    let mut best: u64 = if up {
        NEG_INFINITY
    } else {
        INFINITY
    };
    let mut a: usize = start + base;
    let mut b: usize = end + base;
    let ghost top = choose|k: nat| base == #[trigger] pow2(k);
    let ghost mut level: nat = 0;
    let ghost goal = extreme(up, row@, start as int, end as int);
    proof {
        lemma_powers();
        assert(a * 1 == a && b * 1 == b);
        lemma_split(up, row@, start as int, start as int, end as int);
        lemma_grows(0, top);
    }
    while a < b
        invariant
            is_tree(up, tree@, row@, base as int),
            finite_row(row@),
            base == pow2(top),
            1 <= base <= 2 * MAX_ROW_BYTES,
            b <= 2 * base,
            a < b ==> level <= top,
            base <= a * pow2(level),
            a <= b,
            b * pow2(level) <= 2 * base,
            goal == pick(
                up,
                rank(best),
                extreme(up, row@, a * pow2(level) - base, b * pow2(level) - base),
            ),
            pick(up, rank(best), rank(nothing(up))) == rank(best),
        decreases b,
    {
        let ghost p = pow2(level) as int;
        let ghost a0 = a as int;
        let ghost b0 = b as int;
        proof {
            lemma_pow2_pos(level);
            assert((a0 + 1) * p == a0 * p + p && (b0 - 1) * p == b0 * p - p) by (nonlinear_arith);
            assert((a0 + 1) * p <= b0 * p) by (nonlinear_arith)
                requires
                    a0 + 1 <= b0,
                    p >= 1,
            ;
            // Both ends are whole multiples of the span, and so are the bounds of the leaves.
            lemma_pow2_adds(level, (top - level) as nat);
            let w = pow2((top - level) as nat) as int;
            assert(p * w == base);
            assert(w <= a0 && b0 <= 2 * w) by (nonlinear_arith)
                requires
                    p * w <= a0 * p,
                    b0 * p <= 2 * (p * w),
                    p >= 1,
            ;
            assert(a0 * p < 2 * base && b0 * p - p >= base) by (nonlinear_arith)
                requires
                    a0 < b0,
                    b0 * p <= 2 * base,
                    base <= a0 * p,
                    p >= 1,
            ;
            lemma_node(up, tree@, row@, base as int, level, a0);
            lemma_node(up, tree@, row@, base as int, level, b0 - 1);
        }
        if a % 2 == 1 {
            proof {
                lemma_split(up, row@, a0 * p - base, a0 * p + p - base, b0 * p - base);
            }
            best = better(up, best, tree[a]);
            a = a + 1;
        }
        let ghost a1 = a as int;
        proof {
            assert(a1 <= b0);
            assert(a1 * p <= b0 * p) by (nonlinear_arith)
                requires
                    a1 <= b0,
                    p >= 1,
            ;
        }
        if b % 2 == 1 {
            proof {
                assert(a1 <= b0 - 1);
                assert(a1 * p <= (b0 - 1) * p) by (nonlinear_arith)
                    requires
                        a1 <= b0 - 1,
                        p >= 1,
                ;
                lemma_split(up, row@, a1 * p - base, b0 * p - p - base, b0 * p - base);
            }
            b = b - 1;
            best = better(up, best, tree[b]);
        }
        let ghost b1 = b as int;
        proof {
            lemma_twice(level);
            let ha = a1 / 2;
            let hb = b1 / 2;
            assert(2 * ha == a1 && 2 * hb == b1);
            assert(ha * (2 * p) == a1 * p && hb * (2 * p) == b1 * p) by (nonlinear_arith)
                requires
                    2 * ha == a1,
                    2 * hb == b1,
            ;
            assert(a1 * p >= base);
            if ha < hb {
                // A span wider than the row would hold no two nodes.
                if level + 1 > top {
                    assert(p >= base) by {
                        lemma_grows(top, level);
                    }
                    assert(hb * (2 * p) > 2 * base) by (nonlinear_arith)
                        requires
                            hb >= 2,
                            p >= base,
                            base >= 1,
                    ;
                }
            }
            level = level + 1;
        }
        a = a / 2;
        b = b / 2;
    }
    proof {
        lemma_split(up, row@, a * pow2(level) - base, a * pow2(level) - base, a * pow2(level) - base);
    }
    best
}

/// Prefixes and extremes of one row.
pub struct RowSummary {
    pub width: usize,
    pub exponent: i32,
    pub sums: Option<Vec<i128>>,
    pub counts: Vec<usize>,
    pub min: Option<Vec<u64>>,
    pub max: Option<Vec<u64>>,
    pub tree_base: usize,
    pub bytes: usize,
    /// The row that it was built from.
    pub row: Ghost<Seq<Option<u64>>>,
}

/// The first `n` prefixes are exact.
pub open spec fn exact_prefixes(
    sums: Seq<i128>,
    row: Seq<Option<u64>>,
    exponent: int,
    n: int,
) -> bool {
    forall|i: int|
        0 <= i <= n ==> at_place(#[trigger] sums[i] as int, exponent) == total(row, 0, i)
            && -COEFFICIENT_LIMIT <= sums[i] <= COEFFICIENT_LIMIT
}

impl RowSummary {
    pub open spec fn wf(&self) -> bool {
        &&& finite_row(self.row@)
        &&& self.row@.len() == self.width
        &&& 0 < self.width <= MAX_ROW_BYTES
        &&& -1074 <= self.exponent <= 1023
        &&& self.counts@.len() == self.width + 1
        &&& forall|i: int|
            0 <= i <= self.width ==> #[trigger] self.counts@[i] == present(self.row@, 0, i)
        &&& self.sums matches Some(sums) ==> sums@.len() == self.width + 1 && exact_prefixes(
            sums@,
            self.row@,
            self.exponent as int,
            self.width as int,
        )
        &&& self.tree_base == if self.min is Some || self.max is Some {
            next_power(self.width as int)
        } else {
            0
        }
        &&& self.min matches Some(tree) ==> is_tree(
            false,
            tree@,
            self.row@,
            self.tree_base as int,
        )
        &&& self.max matches Some(tree) ==> is_tree(true, tree@, self.row@, self.tree_base as int)
    }

    /// What the helper was built for.
    pub open spec fn serves(&self, o: RowOptions) -> bool {
        &&& self.sums is Some == o.sum
        &&& self.min is Some == o.min
        &&& self.max is Some == o.max
        &&& self.bytes == row_bytes(self.width as int, o)
        &&& self.sums is Some ==> self.exponent == place_of_row(self.row@)
    }
}

/// How many cells are visited until one is found that is not finite.
pub open spec fn visited_finite(row: Seq<Option<u64>>, i: int) -> int
    decreases row.len() - i,
{
    if i < 0 || i >= row.len() {
        row.len() as int
    } else if !cell_ok(row[i]) {
        i + 1
    } else {
        visited_finite(row, i + 1)
    }
}

/// How many cells are visited until their prefixes no longer fit.
pub open spec fn visited_fitting(row: Seq<Option<u64>>, i: int) -> int
    decreases row.len() - i,
{
    if i < 0 || i >= row.len() {
        row.len() as int
    } else if !sums_fit(row, i + 1) {
        i + 1
    } else {
        visited_fitting(row, i + 1)
    }
}

/// How many cells building a helper visits.
pub open spec fn visits_of(row: Seq<Option<u64>>, sum: bool) -> int {
    if sum && finite_row(row) {
        row.len() + visited_fitting(row, 0)
    } else {
        visited_finite(row, 0)
    }
}

/// A row with these values has a helper.
pub open spec fn buildable(row: Seq<Option<u64>>, o: RowOptions) -> bool {
    finite_row(row) && (o.sum ==> sums_fit(row, row.len() as int))
}

/// What a dyadic form says of a value's size.
proof fn lemma_dyadic(bits: u64, c: int, e: int)
    requires
        units(bits) == at_place(c, e),
        -1074 <= e,
        c != 0,
        (if c < 0 {
            -c
        } else {
            c
        }) % 2 == 1,
    ensures
        size_of_bits(bits) == (if c < 0 {
            -c
        } else {
            c
        }) * pow2((e + 1074) as nat),
        twos(size_of_bits(bits)) == e + 1074,
        size_of_bits(bits) > 0,
        negative(bits) == (c < 0),
{
    let k = (e + 1074) as nat;
    let p = pow2(k) as int;
    lemma_pow2_pos(k);
    let m = if c < 0 {
        -c
    } else {
        c
    };
    assert(m * p >= 1) by (nonlinear_arith)
        requires
            m >= 1,
            p >= 1,
    ;
    assert((-m) * p == -(m * p)) by (nonlinear_arith);
    lemma_twos(m as nat, k);
}

proof fn lemma_place_bound(row: Seq<Option<u64>>, i: int, n: int)
    requires
        0 <= i < n <= row.len(),
        cell_size(row[i]) != 0,
    ensures
        lowest_place(row, n) is Some,
        lowest_place(row, n)->0 <= twos(cell_size(row[i]) as nat) - 1074,
    decreases n,
{
    if i < n - 1 {
        lemma_place_bound(row, i, n - 1);
    }
}

proof fn lemma_absolute_grows(row: Seq<Option<u64>>, a: int, b: int)
    requires
        0 <= a <= b,
    ensures
        0 <= absolute(row, a) <= absolute(row, b),
    decreases b,
{
    if a < b {
        lemma_absolute_grows(row, a, b - 1);
    } else if b > 0 {
        lemma_absolute_grows(row, b - 1, b - 1);
    }
}

proof fn lemma_total_bound(row: Seq<Option<u64>>, n: int)
    requires
        0 <= n,
    ensures
        -absolute(row, n) <= total(row, 0, n) <= absolute(row, n),
    decreases n,
{
    if n > 0 {
        lemma_total_bound(row, n - 1);
    }
}

/// The common binary place of a row, where every present value is finite.
fn scan_row(
    values: &[u64],
    valid: &[bool],
    begin: usize,
    width: usize,
    visits: &mut u64,
) -> (r: Option<i32>)
    requires
        begin + width <= values@.len(),
        values@.len() == valid@.len(),
        *old(visits) + width <= u64::MAX,
    ensures
        ({
            let row = row_of(values@, valid@, begin as int, width as int);
            &&& *final(visits) == *old(visits) + visited_finite(row, 0)
            &&& match r {
                Some(e) => finite_row(row) && e == place_of_row(row) && -1074 <= e <= 1023,
                None => !finite_row(row),
            }
        }),
{
    let ghost row = row_of(values@, valid@, begin as int, width as int);
    let limit: usize = values.len();
    let mut lowest: Option<i32> = None;
    let mut i: usize = 0;
    while i < width
        invariant
            i <= width,
            limit == values@.len(),
            begin + width <= limit,
            values@.len() == valid@.len(),
            row == row_of(values@, valid@, begin as int, width as int),
            *visits == *old(visits) + i,
            *old(visits) + width <= u64::MAX,
            visited_finite(row, 0) == visited_finite(row, i as int),
            forall|k: int| 0 <= k < i ==> cell_ok(#[trigger] row[k]),
            match lowest {
                Some(e) => lowest_place(row, i as int) == Some(e as int) && -1074 <= e <= 1023,
                None => lowest_place(row, i as int) is None,
            },
        decreases width - i,
    {
        *visits = *visits + 1;
        if valid[begin + i] {
            match dyadic(values[begin + i]) {
                None => {
                    assert(!cell_ok(row[i as int]));
                    return None;
                },
                Some((c, e)) => {
                    if c != 0 {
                        proof {
                            lemma_dyadic(values@[begin + i], c as int, e as int);
                        }
                        lowest = match lowest {
                            Some(other) => Some(
                                if e < other {
                                    e
                                } else {
                                    other
                                },
                            ),
                            None => Some(e),
                        };
                    }
                },
            }
        }
        i += 1;
    }
    match lowest {
        Some(e) => Some(e),
        None => Some(0),
    }
}

/// The exact prefixes of a row, where they fit.
fn prefix_sums(
    values: &[u64],
    valid: &[bool],
    begin: usize,
    width: usize,
    exponent: i32,
    visits: &mut u64,
) -> (r: Option<Vec<i128>>)
    requires
        begin + width <= values@.len(),
        values@.len() == valid@.len(),
        width <= MAX_ROW_BYTES,
        *old(visits) + width <= u64::MAX,
        finite_row(row_of(values@, valid@, begin as int, width as int)),
        exponent == place_of_row(row_of(values@, valid@, begin as int, width as int)),
        -1074 <= exponent <= 1023,
    ensures
        ({
            let row = row_of(values@, valid@, begin as int, width as int);
            &&& *final(visits) == *old(visits) + visited_fitting(row, 0)
            &&& match r {
                Some(sums) => {
                    &&& sums_fit(row, width as int)
                    &&& sums@.len() == width + 1
                    &&& exact_prefixes(sums@, row, exponent as int, width as int)
                },
                None => !sums_fit(row, width as int),
            }
        }),
{
    let ghost row = row_of(values@, valid@, begin as int, width as int);
    let ghost k = (exponent + 1074) as nat;
    let ghost p = pow2(k) as int;
    let limit: usize = values.len();
    let mut sums: Vec<i128> = Vec::new();
    sums.push(0);
    let mut sum: i128 = 0;
    let mut used: u128 = 0;
    let mut i: usize = 0;
    proof {
        lemma_pow2_pos(k);
        assert(0 * p == 0) by (nonlinear_arith);
        assert(COEFFICIENT_LIMIT * p >= 0) by (nonlinear_arith)
            requires
                p >= 1,
        ;
    }
    while i < width
        invariant
            i <= width <= MAX_ROW_BYTES,
            limit == values@.len(),
            begin + width <= limit,
            values@.len() == valid@.len(),
            row == row_of(values@, valid@, begin as int, width as int),
            finite_row(row),
            exponent == place_of_row(row),
            -1074 <= exponent <= 1023,
            k == (exponent + 1074) as nat,
            p == pow2(k),
            p >= 1,
            *visits == *old(visits) + i,
            *old(visits) + width <= u64::MAX,
            visited_fitting(row, 0) == visited_fitting(row, i as int),
            sums@.len() == i + 1,
            sum == sums@[i as int],
            sum * p == total(row, 0, i as int),
            used * p == absolute(row, i as int),
            used <= COEFFICIENT_LIMIT,
            -used <= sum <= used,
            exact_prefixes(sums@, row, exponent as int, i as int),
        decreases width - i,
    {
        *visits = *visits + 1;
        let ghost before_sums = sums@;
        let ghost old_used = used as int;
        let ghost old_sum = sum as int;
        if valid[begin + i] {
            let bits: u64 = values[begin + i];
            assert(row[i as int] == Some(bits));
            match dyadic(bits) {
                None => {
                    assert(cell_ok(row[i as int]));
                    assert(false);
                    return None;
                },
                Some((c, e)) => {
                    if c != 0 {
                        let sign: bool = c < 0;
                        let m: u128 = if sign {
                            (-c) as u128
                        } else {
                            c as u128
                        };
                        proof {
                            lemma_dyadic(bits, c as int, e as int);
                            lemma_place_bound(row, i as int, width as int);
                        }
                        let shift: u32 = (e - exponent) as u32;
                        let ghost size = size_of_bits(bits) as int;
                        proof {
                            let q = pow2(shift as nat) as int;
                            lemma_pow2_adds(shift as nat, k);
                            assert(m * (q * p) == (m * q) * p) by (nonlinear_arith);
                            assert(size == (m * q) * p);
                        }
                        let found = doubled(m, shift);
                        let aligned: u128 = match found {
                            Some(aligned) => aligned,
                            None => {
                                proof {
                                    let q = m * pow2(shift as nat);
                                    assert(q * p > COEFFICIENT_LIMIT * p) by (nonlinear_arith)
                                        requires
                                            q > COEFFICIENT_LIMIT,
                                            p >= 1,
                                    ;
                                    lemma_absolute_grows(row, i as int, i as int);
                                    assert(absolute(row, i + 1) == absolute(row, i as int) + size);
                                    lemma_unfit(row, i as int);
                                }
                                return None;
                            },
                        };
                        proof {
                            assert((old_used + aligned) * p == old_used * p + aligned * p)
                                by (nonlinear_arith);
                            assert((old_sum + aligned) * p == old_sum * p + aligned * p)
                                by (nonlinear_arith);
                            assert((old_sum - aligned) * p == old_sum * p - aligned * p)
                                by (nonlinear_arith);
                        }
                        used = used + aligned;
                        if used > COEFFICIENT_LIMIT {
                            proof {
                                let u = used as int;
                                assert(u * p > COEFFICIENT_LIMIT * p) by (nonlinear_arith)
                                    requires
                                        u > COEFFICIENT_LIMIT,
                                        p >= 1,
                                ;
                                lemma_unfit(row, i as int);
                            }
                            return None;
                        }
                        if sign {
                            sum = sum - aligned as i128;
                        } else {
                            sum = sum + aligned as i128;
                        }
                    }
                },
            }
        } else {
            assert(row[i as int] is None);
        }
        proof {
            let u = used as int;
            assert(u * p <= COEFFICIENT_LIMIT * p) by (nonlinear_arith)
                requires
                    u <= COEFFICIENT_LIMIT,
                    p >= 1,
            ;
            assert(absolute(row, i + 1) == u * p);
            assert(sums_fit(row, i + 1));
        }
        sums.push(sum);
        proof {
            assert forall|j: int| 0 <= j <= i + 1 implies at_place(
                #[trigger] sums@[j] as int,
                exponent as int,
            ) == total(row, 0, j) && -COEFFICIENT_LIMIT <= sums@[j] <= COEFFICIENT_LIMIT by {
                if j <= i {
                    assert(sums@[j] == before_sums[j]);
                }
            }
        }
        i += 1;
    }
    assert(sums_fit(row, width as int)) by {
        let u = used as int;
        assert(u * p <= COEFFICIENT_LIMIT * p) by (nonlinear_arith)
            requires
                u <= COEFFICIENT_LIMIT,
                p >= 1,
        ;
    }
    Some(sums)
}

/// Prefixes that do not fit stay so.
proof fn lemma_unfit(row: Seq<Option<u64>>, i: int)
    requires
        0 <= i < row.len(),
        !sums_fit(row, i + 1),
    ensures
        !sums_fit(row, row.len() as int),
        visited_fitting(row, i) == i + 1,
{
    lemma_absolute_grows(row, i + 1, row.len() as int);
}

/// How many values are present, prefix by prefix; none where one is not finite.
fn prefix_counts(
    values: &[u64],
    valid: &[bool],
    begin: usize,
    width: usize,
) -> (r: Vec<usize>)
    requires
        begin + width <= values@.len(),
        values@.len() == valid@.len(),
        width <= MAX_ROW_BYTES,
    ensures
        r@.len() == width + 1,
        forall|i: int|
            0 <= i <= width ==> #[trigger] r@[i] == present(
                row_of(values@, valid@, begin as int, width as int),
                0,
                i,
            ),
{
    let ghost row = row_of(values@, valid@, begin as int, width as int);
    let limit: usize = values.len();
    let mut counts: Vec<usize> = Vec::new();
    counts.push(0);
    let mut count: usize = 0;
    let mut i: usize = 0;
    while i < width
        invariant
            i <= width <= MAX_ROW_BYTES,
            limit == values@.len(),
            begin + width <= limit,
            values@.len() == valid@.len(),
            row == row_of(values@, valid@, begin as int, width as int),
            counts@.len() == i + 1,
            count == present(row, 0, i as int),
            count <= i,
            forall|j: int| 0 <= j <= i ==> #[trigger] counts@[j] == present(row, 0, j),
        decreases width - i,
    {
        if valid[begin + i] {
            count = count + 1;
        }
        counts.push(count);
        i += 1;
    }
    counts
}

/// Bits of a plain zero.
pub const ZERO: u64 = 0;

/// The sum, the count and the extremes of a range.
#[derive(Clone, Copy, Debug, PartialEq, Eq, Structural)]
pub struct RangeSummary {
    /// The two doubles whose sum is the sum of the range.
    pub high: u64,
    pub low: u64,
    pub count: usize,
    pub min: u64,
    pub max: u64,
}

/// The coefficient of the sum of a range, at the place of its row.
pub open spec fn coefficient_of(sums: Seq<i128>, start: int, end: int) -> int {
    sums[end] - sums[start]
}

/// The sum of a range can be given as two doubles.
pub open spec fn range_representable(s: RowSummary, start: int, end: int) -> bool {
    match s.sums {
        Some(sums) => {
            let c = coefficient_of(sums@, start, end);
            let e = s.exponent as int;
            &&& -COEFFICIENT_LIMIT <= c <= COEFFICIENT_LIMIT
            &&& representable(at_place(head_of(c), e))
            &&& representable(at_place(c - head_of(c), e))
        },
        None => true,
    }
}

proof fn lemma_total_splits(row: Seq<Option<u64>>, lo: int, mid: int, hi: int)
    requires
        lo <= mid <= hi,
    ensures
        total(row, lo, hi) == total(row, lo, mid) + total(row, mid, hi),
        present(row, lo, hi) == present(row, lo, mid) + present(row, mid, hi),
        0 <= present(row, mid, hi) <= hi - mid,
    decreases hi - mid,
{
    if mid < hi {
        lemma_total_splits(row, lo, mid, hi - 1);
    }
}

proof fn lemma_visits(row: Seq<Option<u64>>, i: int)
    requires
        0 <= i <= row.len(),
    ensures
        i <= visited_finite(row, i) <= row.len(),
        i <= visited_fitting(row, i) <= row.len(),
    decreases row.len() - i,
{
    if i < row.len() {
        lemma_visits(row, i + 1);
    }
}

impl RowSummary {
    /// Exact list capacity plus fixed headers; checked before allocation.
    pub fn estimate_bytes(width: usize, o: RowOptions) -> (r: Option<usize>)
        ensures
            r == (if row_fits(width as int, o) {
                Some(row_bytes(width as int, o) as usize)
            } else {
                None
            }),
    {
        measured(width, o)
    }

    /// `row` is a zero-based row index in a dense band of `width` columns.
    /// The caller polls cancellation between bounded tile rows; this helper performs at most two
    /// value scans plus requested extrema-tree construction.
    pub fn build(values: &[u64], valid: &[bool], row: usize, width: usize, o: RowOptions) -> (r:
        Option<Self>)
        ensures
            built(values@, valid@, row as int, width as int, o, r),
    {
        let mut visits: u64 = 0;
        Self::build_counted(values, valid, row, width, o, &mut visits)
    }

    /// Count actual input visits, including rejected prefix builds.
    pub fn build_counted(
        values: &[u64],
        valid: &[bool],
        row: usize,
        width: usize,
        o: RowOptions,
        visits: &mut u64,
    ) -> (r: Option<Self>)
        requires
            *old(visits) + 2 * MAX_ROW_BYTES <= u64::MAX,
        ensures
            built(values@, valid@, row as int, width as int, o, r),
            *final(visits) == *old(visits) + if row_fits(width as int, o) && row_held(
                values@,
                valid@,
                row as int,
                width as int,
            ) {
                visits_of(row_of(values@, valid@, row * width, width as int), o.sum)
            } else {
                0
            },
    {
        let bytes: usize = match measured(width, o) {
            Some(bytes) => bytes,
            None => {
                return None;
            },
        };
        proof {
            lemma_next_power(width as int);
            let w = width as int;
            assert((w + 1) * word() >= w) by (nonlinear_arith)
                requires
                    w >= 0,
                    word() >= 1,
            ;
            let np = next_power(w);
            assert(np * 16 * 1 == 16 * np && np * 16 * 2 == 32 * np && np * 16 * 0 == 0)
                by (nonlinear_arith);
        }
        let limit: usize = values.len();
        if limit != valid.len() {
            return None;
        }
        let begin: usize = match row.checked_mul(width) {
            Some(begin) => begin,
            None => {
                return None;
            },
        };
        if begin > limit || width > limit - begin {
            return None;
        }
        let ghost cells = row_of(values@, valid@, begin as int, width as int);
        proof {
            lemma_visits(cells, 0);
        }
        let mut exponent: i32 = 0;
        let mut sums: Option<Vec<i128>> = None;
        if o.sum {
            match scan_row(values, valid, begin, width, visits) {
                Some(e) => {
                    exponent = e;
                    proof {
                        lemma_all_visited(cells, 0);
                    }
                },
                None => {
                    return None;
                },
            }
            match prefix_sums(values, valid, begin, width, exponent, visits) {
                Some(found) => {
                    sums = Some(found);
                },
                None => {
                    return None;
                },
            }
        } else {
            match scan_row(values, valid, begin, width, visits) {
                Some(_) => {},
                None => {
                    return None;
                },
            }
        }
        let counts = prefix_counts(values, valid, begin, width);
        let tree_base: usize = if o.min || o.max {
            power_above(width)
        } else {
            0
        };
        let min: Option<Vec<u64>> = if o.min {
            Some(build_tree(false, values, valid, begin, width, tree_base))
        } else {
            None
        };
        let max: Option<Vec<u64>> = if o.max {
            Some(build_tree(true, values, valid, begin, width, tree_base))
        } else {
            None
        };
        Some(RowSummary {
            width,
            exponent,
            sums,
            counts,
            min,
            max,
            tree_base,
            bytes,
            row: Ghost(cells),
        })
    }

    /// What the helper's lists take.
    pub fn bytes(&self) -> (r: usize)
        ensures
            r == self.bytes,
    {
        self.bytes
    }

    pub fn width(&self) -> (r: usize)
        ensures
            r == self.width,
    {
        self.width
    }

    /// Half-open column range. Unrequested extrema return empty-state infinities.
    /// An unrepresentable finite compensated sum returns `None` for raw fallback.
    pub fn range(&self, start: usize, end: usize) -> (r: Option<RangeSummary>)
        requires
            self.wf(),
        ensures
            match r {
                Some(s) => {
                    &&& start <= end <= self.width
                    &&& range_representable(*self, start as int, end as int)
                    &&& finite_bits(s.high) && finite_bits(s.low)
                    &&& units(s.high) + units(s.low) == if self.sums is Some {
                        total(self.row@, start as int, end as int)
                    } else {
                        0
                    }
                    &&& self.sums is None ==> s.high == ZERO && s.low == ZERO
                    &&& self.sums matches Some(sums) ==> {
                        let c = coefficient_of(sums@, start as int, end as int);
                        &&& units(s.high) == at_place(head_of(c), self.exponent as int)
                        &&& units(s.low) == at_place(c - head_of(c), self.exponent as int)
                    }
                    &&& s.count == present(self.row@, start as int, end as int)
                    &&& rank(s.min) == if self.min is Some {
                        extreme(false, self.row@, start as int, end as int)
                    } else {
                        rank(INFINITY)
                    }
                    &&& rank(s.max) == if self.max is Some {
                        extreme(true, self.row@, start as int, end as int)
                    } else {
                        rank(NEG_INFINITY)
                    }
                },
                None => {
                    ||| start > end
                    ||| end > self.width
                    ||| !range_representable(*self, start as int, end as int)
                },
            },
    {
        if start > end || end > self.width {
            return None;
        }
        proof {
            lemma_total_splits(self.row@, 0, start as int, end as int);
            lemma_next_power(self.width as int);
        }
        let sum: (u64, u64) = match &self.sums {
            Some(prefix) => {
                assert(at_place(prefix@[end as int] as int, self.exponent as int) == total(
                    self.row@,
                    0,
                    end as int,
                ));
                assert(at_place(prefix@[start as int] as int, self.exponent as int) == total(
                    self.row@,
                    0,
                    start as int,
                ));
                let c: i128 = prefix[end] - prefix[start];
                proof {
                    let p = pow2((self.exponent + 1074) as nat) as int;
                    let a = prefix@[end as int] as int;
                    let b = prefix@[start as int] as int;
                    assert((a - b) * p == a * p - b * p) by (nonlinear_arith);
                }
                match exact_sum(c, self.exponent) {
                    Some(sum) => {
                        proof {
                            assert(representable(units(sum.0)));
                            assert(representable(units(sum.1)));
                        }
                        sum
                    },
                    None => {
                        proof {
                            let e = self.exponent as int;
                            let hd = head_of(c as int);
                            assert(placed(hd, e, at_place(hd, e)));
                            assert(placed(c - hd, e, at_place(c - hd, e)));
                        }
                        return None;
                    },
                }
            },
            None => {
                proof {
                    let p = pow2(place_of(ZERO)) as int;
                    assert(0 * p == 0) by (nonlinear_arith);
                }
                (ZERO, ZERO)
            },
        };
        assert(self.counts@[end as int] == present(self.row@, 0, end as int));
        assert(self.counts@[start as int] == present(self.row@, 0, start as int));
        let count: usize = self.counts[end] - self.counts[start];
        let min: u64 = match &self.min {
            Some(tree) => query_tree(false, tree, Ghost(self.row@), self.tree_base, start, end),
            None => INFINITY,
        };
        let max: u64 = match &self.max {
            Some(tree) => query_tree(true, tree, Ghost(self.row@), self.tree_base, start, end),
            None => NEG_INFINITY,
        };
        Some(RangeSummary { high: sum.0, low: sum.1, count, min, max })
    }
}

/// The row lies in the band.
pub open spec fn row_held(values: Seq<u64>, valid: Seq<bool>, row: int, width: int) -> bool {
    values.len() == valid.len() && row * width + width <= values.len()
}

/// What building a helper gives.
pub open spec fn built(
    values: Seq<u64>,
    valid: Seq<bool>,
    row: int,
    width: int,
    o: RowOptions,
    r: Option<RowSummary>,
) -> bool {
    let cells = row_of(values, valid, row * width, width);
    match r {
        Some(s) => {
            &&& row_fits(width, o)
            &&& row_held(values, valid, row, width)
            &&& buildable(cells, o)
            &&& s.wf()
            &&& s.serves(o)
            &&& s.width == width
            &&& s.row@ == cells
        },
        None => {
            ||| !row_fits(width, o)
            ||| !row_held(values, valid, row, width)
            ||| !buildable(cells, o)
        },
    }
}

proof fn lemma_all_visited(row: Seq<Option<u64>>, i: int)
    requires
        finite_row(row),
        0 <= i <= row.len(),
    ensures
        visited_finite(row, i) == row.len(),
    decreases row.len() - i,
{
    if i < row.len() {
        assert(cell_ok(row[i]));
        lemma_all_visited(row, i + 1);
    }
}

/// Ranges that meet add up: the sum and the count of two neighbouring ranges are those of both
/// together, and so are the extremes.
pub proof fn neighbouring_ranges_add_up(row: Seq<Option<u64>>, lo: int, mid: int, hi: int, up: bool)
    requires
        lo <= mid <= hi,
        finite_row(row),
    ensures
        total(row, lo, hi) == total(row, lo, mid) + total(row, mid, hi),
        present(row, lo, hi) == present(row, lo, mid) + present(row, mid, hi),
        extreme(up, row, lo, hi) == pick(up, extreme(up, row, lo, mid), extreme(up, row, mid, hi)),
{
    lemma_total_splits(row, lo, mid, hi);
    lemma_split(up, row, lo, mid, hi);
}

} // verus!
