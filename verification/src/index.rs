//! Row-major positions and their inverses.
use vstd::arithmetic::div_mod::{lemma_fundamental_div_mod, lemma_fundamental_div_mod_converse};
use vstd::prelude::*;

verus! {

/// Item `b` of row `a` in rows of `n`: in range, and found again by dividing.
pub proof fn lemma_row_major(a: int, b: int, n: int, rows: int)
    requires
        0 <= a < rows,
        0 <= b < n,
    ensures
        0 <= a * n + b < rows * n,
        (a * n + b) / n == a,
        (a * n + b) % n == b,
{
    lemma_fundamental_div_mod_converse(a * n + b, n, a, b);
    assert(0 <= a * n && a * n + n <= rows * n) by (nonlinear_arith)
        requires
            0 <= a < rows,
            0 < n,
    ;
}

/// Every position lies in one row, at one place.
pub proof fn lemma_row_of(i: int, n: int, rows: int)
    requires
        0 < n,
        0 <= i < rows * n,
    ensures
        0 <= i / n < rows,
        0 <= i % n < n,
        i / n * n + i % n == i,
{
    lemma_fundamental_div_mod(i, n);
    let q = i / n;
    assert(n * q == q * n) by (nonlinear_arith);
    assert(0 <= q < rows) by (nonlinear_arith)
        requires
            0 < n,
            0 <= i < rows * n,
            i == q * n + i % n,
            0 <= i % n < n,
    ;
}

/// Two positions differ where their rows or their places differ.
pub proof fn lemma_distinct(a: int, b: int, c: int, d: int, n: int)
    requires
        0 <= a,
        0 <= c,
        0 <= b < n,
        0 <= d < n,
        a != c || b != d,
    ensures
        a * n + b != c * n + d,
{
    lemma_row_major(a, b, n, a + 1);
    lemma_row_major(c, d, n, c + 1);
}

} // verus!
