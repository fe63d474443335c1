//! The native grid that every source, index and serving object refers to.
use vstd::prelude::*;

use crate::error::Error;
use crate::text::{byte_len, same, utf8};

verus! {

/// The largest raster side: raster libraries count cells of a side in a C int.
pub const MAX_SIDE: usize = 0x7fff_ffff;

pub const MAX_CRS_BYTES: usize = 4096;

/// A declared source grid. The six affine coefficients are kept as the bits of their
/// doubles: arithmetic on coordinates is the reader's.
#[derive(Debug)]
pub struct Grid {
    pub width: usize,
    pub height: usize,
    pub transform_bits: [u64; 6],
    pub crs: String,
}

impl Grid {
    /// Each side has at least one cell, and no more than a raster can have.
    pub open spec fn shaped(&self) -> bool {
        1 <= self.width <= MAX_SIDE && 1 <= self.height <= MAX_SIDE
    }

    pub open spec fn valid(&self) -> bool {
        self.shaped() && utf8(self.crs@).len() <= MAX_CRS_BYTES
    }

    pub open spec fn equals(&self, other: &Grid) -> bool {
        &&& self.width == other.width
        &&& self.height == other.height
        &&& self.transform_bits@ == other.transform_bits@
        &&& self.crs@ == other.crs@
    }

    /// Check the parts of a grid that need no arithmetic on coordinates.
    pub fn validate(&self) -> (r: Result<(), Error>)
        ensures
            r == (if self.valid() {
                Ok::<(), Error>(())
            } else {
                Err(Error::GridShape)
            }),
    {
        if 1 <= self.width && self.width <= MAX_SIDE && 1 <= self.height && self.height <= MAX_SIDE
            && byte_len(self.crs.as_str()) <= MAX_CRS_BYTES {
            Ok(())
        } else {
            Err(Error::GridShape)
        }
    }

    pub fn same(&self, other: &Grid) -> (r: bool)
        ensures
            r == self.equals(other),
    {
        if self.width != other.width || self.height != other.height {
            return false;
        }
        let mut i: usize = 0;
        while i < 6
            invariant
                i <= 6,
                forall|k: int| 0 <= k < i ==> self.transform_bits@[k] == other.transform_bits@[k],
            decreases 6 - i,
        {
            if self.transform_bits[i] != other.transform_bits[i] {
                return false;
            }
            i += 1;
        }
        assert(self.transform_bits@ =~= other.transform_bits@);
        same(self.crs.as_str(), other.crs.as_str())
    }

    pub fn copy(&self) -> (r: Grid)
        ensures
            r.equals(self),
            r == *self,
    {
        Grid {
            width: self.width,
            height: self.height,
            transform_bits: self.transform_bits,
            crs: self.crs.clone(),
        }
    }
}

/// How many parts of `size` cover `n`.
pub open spec fn ceil_div(n: int, size: int) -> int {
    (n + size - 1) / size
}

pub fn div_ceil(n: usize, size: usize) -> (r: usize)
    requires
        size > 0,
    ensures
        r == ceil_div(n as int, size as int),
{
    let q: usize = n / size;
    let rest: usize = n % size;
    proof {
        vstd::arithmetic::div_mod::lemma_fundamental_div_mod(n as int, size as int);
        let s = size as int;
        assert(s * q == q * s) by (nonlinear_arith);
        if rest == 0 {
            vstd::arithmetic::div_mod::lemma_fundamental_div_mod_converse(
                n + s - 1,
                s,
                q as int,
                s - 1,
            );
        } else {
            assert((q + 1) * s == q * s + s) by (nonlinear_arith);
            vstd::arithmetic::div_mod::lemma_fundamental_div_mod_converse(
                n + s - 1,
                s,
                q + 1,
                rest - 1,
            );
            assert(q < n) by (nonlinear_arith)
                requires
                    n == q * s + rest,
                    rest > 0,
                    s >= 1,
                    q >= 0,
            ;
        }
    }
    if rest == 0 {
        q
    } else {
        q + 1
    }
}

/// Part `i` begins before the end exactly where it is one of the parts.
pub proof fn lemma_ceil_div(n: int, size: int)
    requires
        0 <= n,
        0 < size,
    ensures
        0 <= ceil_div(n, size) <= n,
        (ceil_div(n, size) - 1) * size < n || n == 0,
        n <= ceil_div(n, size) * size,
        n > 0 ==> ceil_div(n, size) > 0,
        forall|i: int| #![trigger i * size] (i < ceil_div(n, size)) == (i * size < n),
{
    let c = ceil_div(n, size);
    vstd::arithmetic::div_mod::lemma_fundamental_div_mod(n + size - 1, size);
    let rest = (n + size - 1) % size;
    assert(size * c == c * size) by (nonlinear_arith);
    assert(c * size == n + size - 1 - rest);
    assert((c - 1) * size == c * size - size) by (nonlinear_arith);
    assert(0 <= c) by (nonlinear_arith)
        requires
            c * size >= n,
            n >= 0,
            size > 0,
    ;
    assert(c <= n) by (nonlinear_arith)
        requires
            (c - 1) * size < n || n == 0,
            c * size <= n + size - 1,
            size > 0,
            n >= 0,
            c >= 0,
    ;
    assert forall|i: int| #![trigger i * size] (i < c) == (i * size < n) by {
        if i < c {
            assert(i * size <= (c - 1) * size) by (nonlinear_arith)
                requires
                    i <= c - 1,
                    size > 0,
            ;
        } else {
            assert(i * size >= c * size) by (nonlinear_arith)
                requires
                    i >= c,
                    size > 0,
            ;
        }
    }
    if n > 0 {
        assert(c > 0) by (nonlinear_arith)
            requires
                c * size >= n,
                n > 0,
                size > 0,
        ;
    }
}

/// Covering by parts of `size` and then by pairs of parts is covering by parts of twice the
/// size.
pub proof fn lemma_ceil_twice(n: int, size: int)
    requires
        0 <= n,
        0 < size,
    ensures
        ceil_div(ceil_div(n, size), 2) == ceil_div(n, 2 * size),
{
    lemma_ceil_div(n, size);
    lemma_ceil_div(n, 2 * size);
    let a = ceil_div(n, size);
    let b = ceil_div(n, 2 * size);
    lemma_ceil_div(a, 2);
    let c = ceil_div(a, 2);
    // Both count the same: part `i` of twice the size begins before the end exactly where
    // part `2 * i` does.
    assert(forall|i: int| #![trigger i * (2 * size)] i * (2 * size) == (2 * i) * size) by (nonlinear_arith);
    if c < b {
        assert(c * (2 * size) < n);
        assert((2 * c) * size < n);
        assert(2 * c < a);
        assert(c * 2 < a);
        assert(c < c);
    }
    if b < c {
        assert(b * 2 < a);
        assert((2 * b) * size < n);
        assert(b * (2 * size) < n);
        assert(b < b);
    }
}

} // verus!
