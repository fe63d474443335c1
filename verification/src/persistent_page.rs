//! Pages of a persistent index: the summary states of a node, and the raw cells of a tile.
use vstd::prelude::*;

use crate::bytes::{le, le_bytes, u64_at};
use crate::cancel::{check_cancel, ended, Cancel};
use crate::error::Error;
use crate::index::lemma_row_of;
use crate::shared_rows::{rank, INFINITY, NEG_INFINITY};
use crate::skv_header::{finite_bits, is_finite_bits};

verus! {

/// The state of one band over a rectangle: a compensated sum, how many cells are valid, and the
/// extremes, as the bits of doubles.
#[derive(Clone, Copy, Debug, PartialEq, Eq, Structural)]
pub struct BandState {
    pub high: u64,
    pub low: u64,
    pub count: u64,
    pub min: u64,
    pub max: u64,
}

/// The bytes of a state.
pub open spec fn state_bytes(s: BandState) -> Seq<u8> {
    le_bytes(s.high as nat, 8) + le_bytes(s.low as nat, 8) + le_bytes(s.count as nat, 8)
        + le_bytes(s.min as nat, 8) + le_bytes(s.max as nat, 8)
}

/// The bytes of the first `n` states.
pub open spec fn states_bytes(states: Seq<BandState>, n: int) -> Seq<u8>
    decreases n,
{
    if n <= 0 {
        Seq::empty()
    } else {
        states_bytes(states, n - 1) + state_bytes(states[n - 1])
    }
}

/// The state at a place of a page.
pub open spec fn state_at(body: Seq<u8>, band: int) -> BandState {
    let p = band * 40;
    BandState {
        high: le(body.subrange(p, p + 8)) as u64,
        low: le(body.subrange(p + 8, p + 16)) as u64,
        count: le(body.subrange(p + 16, p + 24)) as u64,
        min: le(body.subrange(p + 24, p + 32)) as u64,
        max: le(body.subrange(p + 32, p + 40)) as u64,
    }
}

fn append_u64(out: &mut Vec<u8>, value: u64)
    ensures
        final(out)@ == old(out)@ + le_bytes(value as nat, 8),
{
    let ghost before = out@;
    let mut rest: u64 = value;
    let mut i: usize = 0;
    assert(le_bytes(value as nat, 0) =~= Seq::empty());
    assert(before + Seq::<u8>::empty() =~= before);
    assert(out@ + le_bytes(rest as nat, 8) =~= before + le_bytes(value as nat, 8));
    while i < 8
        invariant
            i <= 8,
            out@ + le_bytes(rest as nat, (8 - i) as nat) == before + le_bytes(value as nat, 8),
        decreases 8 - i,
    {
        let ghost held = out@;
        let b: u8 = (rest % 256) as u8;
        out.push(b);
        proof {
            let tail = le_bytes((rest / 256) as nat, (8 - i - 1) as nat);
            assert(le_bytes(rest as nat, (8 - i) as nat) =~= seq![b] + tail);
            assert(out@ + tail =~= held + (seq![b] + tail));
        }
        rest = rest / 256;
        i += 1;
    }
    assert(out@ + le_bytes(rest as nat, 0) =~= out@);
}

proof fn lemma_state_len(s: BandState)
    ensures
        state_bytes(s).len() == 40,
{
    crate::bytes::lemma_limits();
    crate::bytes::le_bytes_round_trip(s.high as nat, 8);
    crate::bytes::le_bytes_round_trip(s.low as nat, 8);
    crate::bytes::le_bytes_round_trip(s.count as nat, 8);
    crate::bytes::le_bytes_round_trip(s.min as nat, 8);
    crate::bytes::le_bytes_round_trip(s.max as nat, 8);
}

proof fn lemma_states_len(states: Seq<BandState>, n: int)
    requires
        0 <= n <= states.len(),
    ensures
        states_bytes(states, n).len() == 40 * n,
    decreases n,
{
    if n > 0 {
        lemma_states_len(states, n - 1);
        lemma_state_len(states[n - 1]);
    }
}

/// The body of the summary page of a node.
pub fn states_page(states: &Vec<BandState>) -> (r: Vec<u8>)
    ensures
        r@ == states_bytes(states@, states@.len() as int),
        r@.len() == 40 * states@.len(),
{
    let mut out: Vec<u8> = Vec::new();
    let mut i: usize = 0;
    while i < states.len()
        invariant
            i <= states@.len(),
            out@ == states_bytes(states@, i as int),
        decreases states.len() - i,
    {
        let s = states[i];
        let ghost before = out@;
        append_u64(&mut out, s.high);
        append_u64(&mut out, s.low);
        append_u64(&mut out, s.count);
        append_u64(&mut out, s.min);
        append_u64(&mut out, s.max);
        assert(out@ =~= before + state_bytes(s));
        i += 1;
    }
    proof {
        lemma_states_len(states@, states@.len() as int);
    }
    out
}

/// The state of a band in the body of a summary page.
pub fn read_state(body: &[u8], band: usize) -> (r: BandState)
    requires
        band * 40 + 40 <= body@.len(),
    ensures
        r == state_at(body@, band as int),
{
    let len: usize = body.len();
    assert(band * 40 + 40 <= len);
    let p: usize = band * 40;
    BandState {
        high: u64_at(body, p),
        low: u64_at(body, p + 8),
        count: u64_at(body, p + 16),
        min: u64_at(body, p + 24),
        max: u64_at(body, p + 32),
    }
}

/// A summary page gives back the states that were written into it.
pub proof fn states_read_back(states: Seq<BandState>, band: int)
    requires
        0 <= band < states.len(),
    ensures
        state_at(states_bytes(states, states.len() as int), band) == states[band],
{
    lemma_state_part(states, states.len() as int, band);
    let body = states_bytes(states, states.len() as int);
    let s = states[band];
    let part = state_bytes(s);
    let p = band * 40;
    lemma_state_len(s);
    crate::bytes::lemma_limits();
    crate::bytes::le_bytes_round_trip(s.high as nat, 8);
    crate::bytes::le_bytes_round_trip(s.low as nat, 8);
    crate::bytes::le_bytes_round_trip(s.count as nat, 8);
    crate::bytes::le_bytes_round_trip(s.min as nat, 8);
    crate::bytes::le_bytes_round_trip(s.max as nat, 8);
    assert(body.subrange(p, p + 8) =~= part.subrange(0, 8));
    assert(body.subrange(p + 8, p + 16) =~= part.subrange(8, 16));
    assert(body.subrange(p + 16, p + 24) =~= part.subrange(16, 24));
    assert(body.subrange(p + 24, p + 32) =~= part.subrange(24, 32));
    assert(body.subrange(p + 32, p + 40) =~= part.subrange(32, 40));
    assert(part.subrange(0, 8) =~= le_bytes(s.high as nat, 8));
    assert(part.subrange(8, 16) =~= le_bytes(s.low as nat, 8));
    assert(part.subrange(16, 24) =~= le_bytes(s.count as nat, 8));
    assert(part.subrange(24, 32) =~= le_bytes(s.min as nat, 8));
    assert(part.subrange(32, 40) =~= le_bytes(s.max as nat, 8));
}

proof fn lemma_state_part(states: Seq<BandState>, n: int, band: int)
    requires
        0 <= band < n <= states.len(),
    ensures
        states_bytes(states, n).len() == 40 * n,
        states_bytes(states, n).subrange(band * 40, band * 40 + 40) == state_bytes(states[band]),
    decreases n,
{
    lemma_states_len(states, n);
    lemma_states_len(states, n - 1);
    lemma_state_len(states[n - 1]);
    let whole = states_bytes(states, n);
    let before = states_bytes(states, n - 1);
    if band < n - 1 {
        lemma_state_part(states, n - 1, band);
        assert(whole.subrange(band * 40, band * 40 + 40) =~= before.subrange(
            band * 40,
            band * 40 + 40,
        ));
    } else {
        assert(whole.subrange(band * 40, band * 40 + 40) =~= state_bytes(states[band]));
    }
}

/// Either zero.
pub open spec fn is_zero(bits: u64) -> bool {
    bits == 0 || bits == 0x8000_0000_0000_0000
}

/// A stored state that cannot be one of `cells` cells. `mean_fits` says whether its mean lies
/// between its extremes, within the tolerance for rounding.
pub open spec fn state_refusal(s: BandState, cells: int, mean_fits: bool) -> Option<Error> {
    if !(s.count <= cells && finite_bits(s.min) && finite_bits(s.max) && (s.count == 0 || rank(s.min)
        <= rank(s.max))) {
        Some(Error::SummaryState)
    } else if s.count == 0 && !(is_zero(s.high) && is_zero(s.low) && is_zero(s.min) && is_zero(
        s.max,
    )) {
        Some(Error::EmptySummary)
    } else if s.count > 0 && !mean_fits {
        Some(Error::SummaryMean)
    } else {
        None
    }
}

fn ranks_below(a: u64, b: u64) -> (r: bool)
    ensures
        r == (rank(a) <= rank(b)),
{
    let na = a >= 0x8000_0000_0000_0000;
    let nb = b >= 0x8000_0000_0000_0000;
    if na && nb {
        a >= b
    } else if na {
        true
    } else if nb {
        a == 0 && b == 0x8000_0000_0000_0000
    } else {
        a <= b
    }
}

fn zero(bits: u64) -> (r: bool)
    ensures
        r == is_zero(bits),
{
    bits == 0 || bits == 0x8000_0000_0000_0000
}

/// What a validated state counts as: the extremes of no cells are infinite.
pub open spec fn validated(s: BandState) -> BandState {
    if s.count > 0 {
        s
    } else {
        BandState { min: INFINITY, max: NEG_INFINITY, ..s }
    }
}

/// Check a stored state over `cells` cells.
pub fn validated_state(s: BandState, cells: u64, mean_fits: bool) -> (r: Result<BandState, Error>)
    ensures
        r == match state_refusal(s, cells as int, mean_fits) {
            Some(e) => Err::<BandState, Error>(e),
            None => Ok(validated(s)),
        },
{
    if !(s.count <= cells && is_finite_bits(s.min) && is_finite_bits(s.max) && (s.count == 0
        || ranks_below(s.min, s.max))) {
        return Err(Error::SummaryState);
    }
    if s.count == 0 && !(zero(s.high) && zero(s.low) && zero(s.min) && zero(s.max)) {
        return Err(Error::EmptySummary);
    }
    if s.count > 0 && !mean_fits {
        return Err(Error::SummaryMean);
    }
    if s.count > 0 {
        Ok(s)
    } else {
        Ok(BandState { high: s.high, low: s.low, count: s.count, min: INFINITY, max: NEG_INFINITY })
    }
}

/// The lower, or the upper, of two doubles.
pub open spec fn extreme_of(up: bool, a: int, b: int) -> int {
    if (up && b > a) || (!up && b < a) {
        b
    } else {
        a
    }
}

fn pick(up: bool, a: u64, b: u64) -> (r: u64)
    ensures
        rank(r) == extreme_of(up, rank(a), rank(b)),
        r == a || r == b,
{
    if up {
        if ranks_below(b, a) {
            a
        } else {
            b
        }
    } else {
        if ranks_below(a, b) {
            a
        } else {
            b
        }
    }
}

/// A rectangle of a window of cells.
#[derive(Clone, Copy, Debug, PartialEq, Eq, Structural)]
pub struct Part {
    pub stride: usize,
    pub column: usize,
    pub width: usize,
    pub height: usize,
}

/// Where a cell of a part lies in its window.
pub open spec fn place(p: Part, row: int, col: int) -> int {
    row * p.stride + p.column + col
}

pub open spec fn part_fits(p: Part, len: int) -> bool {
    &&& p.column + p.width <= p.stride
    &&& p.height * p.stride <= len
}

/// The cells of a part, row by row: the first `n` of them. How many are valid.
pub open spec fn valid_to(valid: Seq<bool>, p: Part, n: int) -> int
    decreases n,
{
    if n <= 0 {
        0
    } else {
        valid_to(valid, p, n - 1) + if valid[cell_at(p, n - 1)] {
            1int
        } else {
            0
        }
    }
}

/// Where the `i`th cell of a part lies in its window.
pub open spec fn cell_at(p: Part, i: int) -> int {
    place(p, i / p.width as int, i % p.width as int)
}

/// The extreme rank of the first `n` cells of a part.
pub open spec fn extreme_to(up: bool, values: Seq<u64>, valid: Seq<bool>, p: Part, n: int) -> int
    decreases n,
{
    if n <= 0 {
        rank(if up {
            NEG_INFINITY
        } else {
            INFINITY
        })
    } else {
        let before = extreme_to(up, values, valid, p, n - 1);
        let at = cell_at(p, n - 1);
        if valid[at] {
            extreme_of(up, before, rank(values[at]))
        } else {
            before
        }
    }
}

proof fn lemma_place(p: Part, i: int, len: int)
    requires
        part_fits(p, len),
        0 <= i < p.width * p.height,
    ensures
        p.width > 0,
        0 <= i / p.width as int,
        i / (p.width as int) < p.height,
        0 <= i % (p.width as int) < p.width,
        0 <= cell_at(p, i) < len,
        (i / (p.width as int)) * p.stride <= len,
{
    let w = p.width as int;
    let h = p.height as int;
    let s = p.stride as int;
    assert(w > 0) by (nonlinear_arith)
        requires
            0 <= i < w * h,
            h >= 0,
    ;
    assert(w * h == h * w) by (nonlinear_arith);
    lemma_row_of(i, w, h);
    let row = i / w;
    let col = i % w;
    assert((row + 1) * s <= h * s) by (nonlinear_arith)
        requires
            row + 1 <= h,
            s >= 0,
    ;
    assert((row + 1) * s == row * s + s) by (nonlinear_arith);
    assert(row * s >= 0) by (nonlinear_arith)
        requires
            row >= 0,
            s >= 0,
    ;
}

/// The state of a band over a part of a window. `high` and `low` are the compensated sum of its
/// valid cells.
pub fn part_state(values: &Vec<u64>, valid: &Vec<bool>, p: Part, high: u64, low: u64) -> (r: BandState)
    requires
        values@.len() == valid@.len(),
        part_fits(p, values@.len() as int),
        p.width * p.height <= usize::MAX,
    ensures
        ({
            let n = p.width * p.height;
            let count = valid_to(valid@, p, n);
            &&& r.high == high
            &&& r.low == low
            &&& r.count == count
            &&& if count > 0 {
                &&& rank(r.min) == extreme_to(false, values@, valid@, p, n)
                &&& rank(r.max) == extreme_to(true, values@, valid@, p, n)
            } else {
                r.min == 0 && r.max == 0
            }
        }),
{
    let total: usize = p.width * p.height;
    let len: usize = values.len();
    let mut count: u64 = 0;
    let mut min: u64 = INFINITY;
    let mut max: u64 = NEG_INFINITY;
    let mut i: usize = 0;
    while i < total
        invariant
            total == p.width * p.height,
            len == values@.len(),
            values@.len() == valid@.len(),
            part_fits(p, values@.len() as int),
            i <= total,
            count <= i,
            count == valid_to(valid@, p, i as int),
            rank(min) == extreme_to(false, values@, valid@, p, i as int),
            rank(max) == extreme_to(true, values@, valid@, p, i as int),
        decreases total - i,
    {
        proof {
            lemma_place(p, i as int, values@.len() as int);
        }
        assert(cell_at(p, i as int) < len);
        let at: usize = i / p.width * p.stride + p.column + i % p.width;
        if valid[at] {
            let v: u64 = values[at];
            count = count + 1;
            min = pick(false, min, v);
            max = pick(true, max, v);
        }
        i += 1;
    }
    if count > 0 {
        BandState { high, low, count, min, max }
    } else {
        BandState { high, low, count, min: 0, max: 0 }
    }
}

/// The count of the first `n` children of a node.
pub open spec fn counts_to(children: Seq<BandState>, n: int) -> int
    decreases n,
{
    if n <= 0 {
        0
    } else {
        counts_to(children, n - 1) + children[n - 1].count
    }
}

/// The extreme rank of the first `n` children of a node.
pub open spec fn child_extreme(up: bool, children: Seq<BandState>, n: int) -> int
    decreases n,
{
    if n <= 0 {
        rank(if up {
            NEG_INFINITY
        } else {
            INFINITY
        })
    } else {
        let before = child_extreme(up, children, n - 1);
        let c = children[n - 1];
        if c.count == 0 {
            before
        } else {
            extreme_of(
                up,
                before,
                rank(
                    if up {
                        c.max
                    } else {
                        c.min
                    },
                ),
            )
        }
    }
}

/// The state of a node from those of its children, never from a resampled raster. `high` and
/// `low` are the merged compensated sum.
pub fn parent_state(children: &Vec<BandState>, high: u64, low: u64) -> (r: Result<BandState, Error>)
    ensures
        ({
            let n = children@.len() as int;
            let count = counts_to(children@, n);
            if count > u64::MAX {
                r == Err::<BandState, Error>(Error::CountOverflow)
            } else {
                &&& r matches Ok(s)
                &&& s.high == high
                &&& s.low == low
                &&& s.count == count
                &&& if count > 0 {
                    &&& rank(s.min) == child_extreme(false, children@, n)
                    &&& rank(s.max) == child_extreme(true, children@, n)
                } else {
                    s.min == 0 && s.max == 0
                }
            }
        }),
{
    let mut count: u64 = 0;
    let mut min: u64 = INFINITY;
    let mut max: u64 = NEG_INFINITY;
    let mut i: usize = 0;
    while i < children.len()
        invariant
            i <= children@.len(),
            count == counts_to(children@, i as int),
            rank(min) == child_extreme(false, children@, i as int),
            rank(max) == child_extreme(true, children@, i as int),
        decreases children.len() - i,
    {
        let c = children[i];
        count = match count.checked_add(c.count) {
            Some(count) => count,
            None => {
                proof {
                    lemma_counts_grow(children@, i + 1, children@.len() as int);
                }
                return Err(Error::CountOverflow);
            },
        };
        if c.count > 0 {
            min = pick(false, min, c.min);
            max = pick(true, max, c.max);
        }
        i += 1;
    }
    if count > 0 {
        Ok(BandState { high, low, count, min, max })
    } else {
        Ok(BandState { high, low, count, min: 0, max: 0 })
    }
}

proof fn lemma_counts_grow(children: Seq<BandState>, a: int, b: int)
    requires
        0 <= a <= b <= children.len(),
    ensures
        counts_to(children, a) <= counts_to(children, b),
    decreases b - a,
{
    if a < b {
        lemma_counts_grow(children, a, b - 1);
    }
}

/// The cells of a band of a tile.
pub struct TileBand {
    pub values: Vec<u64>,
    pub valid: Vec<bool>,
}

/// The value and the mask that a raw page holds for a cell of a tile; nothing beyond its band's
/// cells.
pub open spec fn raw_cell(
    bands: Seq<TileBand>,
    p: Part,
    edge: int,
    group: int,
    g: int,
    i: int,
) -> (u64, bool) {
    let cell = i / group;
    let band = g * group + i % group;
    let row = cell / edge;
    let col = cell % edge;
    if row < p.height && col < p.width && band < bands.len() && bands[band].valid@[place(p, row, col)] {
        (bands[band].values@[place(p, row, col)], true)
    } else {
        (0, false)
    }
}

/// The nine bytes of a value and its mask.
pub open spec fn cell_bytes(c: (u64, bool)) -> Seq<u8> {
    le_bytes(c.0 as nat, 8).push(
        if c.1 {
            1u8
        } else {
            0u8
        },
    )
}

/// The first `n` cells of a raw page.
pub open spec fn raw_bytes(
    bands: Seq<TileBand>,
    p: Part,
    edge: int,
    group: int,
    g: int,
    n: int,
) -> Seq<u8>
    decreases n,
{
    if n <= 0 {
        Seq::empty()
    } else {
        raw_bytes(bands, p, edge, group, g, n - 1) + cell_bytes(
            raw_cell(bands, p, edge, group, g, n - 1),
        )
    }
}

/// The bands cover the cells of a part.
pub open spec fn bands_cover(bands: Seq<TileBand>, p: Part) -> bool {
    forall|b: int|
        0 <= b < bands.len() ==> (#[trigger] bands[b]).values@.len() == bands[b].valid@.len()
            && part_fits(p, bands[b].values@.len() as int)
}

proof fn lemma_cells_len(bands: Seq<TileBand>, p: Part, edge: int, group: int, g: int, n: int)
    requires
        0 <= n,
    ensures
        raw_bytes(bands, p, edge, group, g, n).len() == 9 * n,
    decreases n,
{
    if n > 0 {
        lemma_cells_len(bands, p, edge, group, g, n - 1);
        let c = raw_cell(bands, p, edge, group, g, n - 1);
        crate::bytes::lemma_limits();
        crate::bytes::le_bytes_round_trip(c.0 as nat, 8);
    }
}

/// The body of the raw page of a group of bands of a tile: the cells row by row, and in each cell
/// the bands of the group.
pub fn raw_page(bands: &Vec<TileBand>, p: Part, edge: usize, group: usize, g: usize) -> (r: Vec<u8>)
    requires
        bands_cover(bands@, p),
        p.width <= edge,
        p.height <= edge,
        1 <= edge <= 256,
        1 <= group <= 20,
        g <= 20,
        bands@.len() <= 20,
    ensures
        r@ == raw_bytes(
            bands@,
            p,
            edge as int,
            group as int,
            g as int,
            edge * edge * group,
        ),
        r@.len() == 9 * (edge * edge * group),
{
    assert(edge * edge <= 65536) by (nonlinear_arith)
        requires
            edge <= 256,
    ;
    let square: usize = edge * edge;
    assert(square * group <= 65536 * 20) by (nonlinear_arith)
        requires
            square <= 65536,
            group <= 20,
    ;
    let total: usize = square * group;
    let count: usize = bands.len();
    let mut out: Vec<u8> = Vec::new();
    let mut i: usize = 0;
    while i < total
        invariant
            bands_cover(bands@, p),
            p.width <= edge,
            p.height <= edge,
            1 <= edge <= 256,
            1 <= group <= 20,
            g <= 20,
            count == bands@.len(),
            count <= 20,
            total <= 65536 * 20,
            i <= total,
            out@ == raw_bytes(bands@, p, edge as int, group as int, g as int, i as int),
        decreases total - i,
    {
        let cell: usize = i / group;
        assert(g * group <= 400) by (nonlinear_arith)
            requires
                g <= 20,
                group <= 20,
        ;
        let band: usize = g * group + i % group;
        let row: usize = cell / edge;
        let col: usize = cell % edge;
        let mut value: u64 = 0;
        let mut mask: bool = false;
        if row < p.height && col < p.width && band < count {
            let b = &bands[band];
            proof {
                assert(part_fits(p, bands@[band as int].values@.len() as int));
                lemma_inside(p, row as int, col as int, b.values@.len() as int);
            }
            let len: usize = b.values.len();
            assert(place(p, row as int, col as int) < len);
            let at: usize = row * p.stride + p.column + col;
            if b.valid[at] {
                value = b.values[at];
                mask = true;
            }
        }
        let ghost before = out@;
        append_u64(&mut out, value);
        out.push(
            if mask {
                1
            } else {
                0
            },
        );
        assert(out@ =~= before + cell_bytes((value, mask)));
        i += 1;
    }
    proof {
        lemma_cells_len(bands@, p, edge as int, group as int, g as int, total as int);
    }
    out
}

proof fn lemma_inside(p: Part, row: int, col: int, len: int)
    requires
        part_fits(p, len),
        0 <= row < p.height,
        0 <= col < p.width,
    ensures
        0 <= place(p, row, col) < len,
        0 <= row * p.stride <= len,
{
    let s = p.stride as int;
    let h = p.height as int;
    assert((row + 1) * s <= h * s) by (nonlinear_arith)
        requires
            row + 1 <= h,
            s >= 0,
    ;
    assert((row + 1) * s == row * s + s) by (nonlinear_arith);
    assert(row * s >= 0) by (nonlinear_arith)
        requires
            row >= 0,
            s >= 0,
    ;
}

/// A cell of a raw page.
pub open spec fn cell_read(body: Seq<u8>, i: int) -> Result<(u64, bool), Error> {
    let at = 9 * i;
    let v = le(body.subrange(at, at + 8)) as u64;
    let mask = body[at + 8];
    if mask <= 1 && finite_bits(v) {
        Ok((v, mask == 1))
    } else {
        Err(Error::RawPageValue)
    }
}

/// Read a cell of a raw page: a finite value, and a mask that is zero or one.
pub fn read_cell(body: &[u8], i: usize) -> (r: Result<(u64, bool), Error>)
    requires
        9 * i + 9 <= body@.len(),
    ensures
        r == cell_read(body@, i as int),
{
    let len: usize = body.len();
    assert(9 * i + 9 <= len);
    let at: usize = 9 * i;
    let v: u64 = u64_at(body, at);
    let mask: u8 = body[at + 8];
    if mask <= 1 && is_finite_bits(v) {
        Ok((v, mask == 1))
    } else {
        Err(Error::RawPageValue)
    }
}

proof fn lemma_cell_part(
    bands: Seq<TileBand>,
    p: Part,
    edge: int,
    group: int,
    g: int,
    n: int,
    i: int,
)
    requires
        0 <= i < n,
    ensures
        raw_bytes(bands, p, edge, group, g, n).len() == 9 * n,
        raw_bytes(bands, p, edge, group, g, n).subrange(9 * i, 9 * i + 9) == cell_bytes(
            raw_cell(bands, p, edge, group, g, i),
        ),
    decreases n,
{
    lemma_cells_len(bands, p, edge, group, g, n);
    lemma_cells_len(bands, p, edge, group, g, n - 1);
    let whole = raw_bytes(bands, p, edge, group, g, n);
    let before = raw_bytes(bands, p, edge, group, g, n - 1);
    let c = raw_cell(bands, p, edge, group, g, n - 1);
    crate::bytes::lemma_limits();
    crate::bytes::le_bytes_round_trip(c.0 as nat, 8);
    if i < n - 1 {
        lemma_cell_part(bands, p, edge, group, g, n - 1, i);
        assert(whole.subrange(9 * i, 9 * i + 9) =~= before.subrange(9 * i, 9 * i + 9));
    } else {
        assert(whole.subrange(9 * i, 9 * i + 9) =~= cell_bytes(c));
    }
}

/// A raw page gives back every cell that was written into it, where its values are finite.
pub proof fn raw_cells_read_back(
    bands: Seq<TileBand>,
    p: Part,
    edge: int,
    group: int,
    g: int,
    n: int,
    i: int,
)
    requires
        0 <= i < n,
        finite_bits(raw_cell(bands, p, edge, group, g, i).0),
    ensures
        cell_read(raw_bytes(bands, p, edge, group, g, n), i) == Ok::<(u64, bool), Error>(
            raw_cell(bands, p, edge, group, g, i),
        ),
{
    lemma_cell_part(bands, p, edge, group, g, n, i);
    let body = raw_bytes(bands, p, edge, group, g, n);
    let c = raw_cell(bands, p, edge, group, g, i);
    let part = body.subrange(9 * i, 9 * i + 9);
    crate::bytes::lemma_limits();
    crate::bytes::le_bytes_round_trip(c.0 as nat, 8);
    assert(body.subrange(9 * i, 9 * i + 8) =~= part.subrange(0, 8));
    assert(part.subrange(0, 8) =~= le_bytes(c.0 as nat, 8));
    assert(body[9 * i + 8] == part[8]);
}

/// Where the cell of a band lies in its raw page.
pub open spec fn slot_of(pos: int, group: int, band: int) -> int {
    pos * group + band % group
}

/// A raw page keeps every cell of a tile: the slot of a band holds the cell of that band.
pub proof fn a_slot_holds_its_band(
    bands: Seq<TileBand>,
    p: Part,
    edge: int,
    group: int,
    band: int,
    row: int,
    col: int,
)
    requires
        1 <= group,
        0 <= band < bands.len(),
        0 <= row < p.height,
        0 <= col < p.width,
        p.width <= edge,
        p.height <= edge,
    ensures
        ({
            let i = slot_of(row * edge + col, group, band);
            raw_cell(bands, p, edge, group, band / group, i) == (if bands[band].valid@[place(
                p,
                row,
                col,
            )] {
                (bands[band].values@[place(p, row, col)], true)
            } else {
                (0, false)
            })
        }),
{
    let pos = row * edge + col;
    let i = slot_of(pos, group, band);
    vstd::arithmetic::div_mod::lemma_fundamental_div_mod(band, group);
    assert(group * (band / group) == (band / group) * group) by (nonlinear_arith);
    vstd::arithmetic::div_mod::lemma_fundamental_div_mod_converse(i, group, pos, band % group);
    vstd::arithmetic::div_mod::lemma_fundamental_div_mod_converse(pos, edge, row, col);
}

/// A cell of a band cannot be read from a raw page.
pub open spec fn broken_at(body: Seq<u8>, group: int, band: int, pos: int) -> bool {
    cell_read(body, slot_of(pos, group, band)) is Err
}

/// Read the cells of a band out of a raw page, each from its slot.
pub fn band_cells<C: Cancel>(body: &[u8], edge: usize, group: usize, band: usize, cancel: &C) -> (r:
    Result<TileBand, Error>)
    requires
        1 <= edge <= 256,
        1 <= group <= 20,
        body@.len() == edge * edge * group * 9,
    ensures
        ended(
            cancel,
            r,
            if exists|pos: int|
                0 <= pos < edge * edge && #[trigger] broken_at(
                    body@,
                    group as int,
                    band as int,
                    pos,
                ) {
                r is Err && r->Err_0 == Error::RawPageValue
            } else {
                &&& r is Ok
                &&& r->Ok_0.values@.len() == edge * edge
                &&& r->Ok_0.valid@.len() == edge * edge
                &&& forall|pos: int|
                    #![trigger r->Ok_0.values@[pos]]
                    #![trigger r->Ok_0.valid@[pos]]
                    0 <= pos < edge * edge ==> cell_read(
                        body@,
                        slot_of(pos, group as int, band as int),
                    ) == Ok::<(u64, bool), Error>((r->Ok_0.values@[pos], r->Ok_0.valid@[pos]))
            },
        ),
{
    proof {
        let e = edge as int;
        assert(1 <= e * e <= 65536) by (nonlinear_arith)
            requires
                1 <= e <= 256,
        ;
    }
    let count: usize = edge * edge;
    let mut out = TileBand { values: Vec::new(), valid: Vec::new() };
    let slot: usize = band % group;
    let mut pos: usize = 0;
    while pos < count
        invariant
            count == edge * edge,
            count <= 65536,
            1 <= group <= 20,
            body@.len() == edge * edge * group * 9,
            slot == band as int % group as int,
            slot < group,
            pos <= count,
            pos > 0 ==> !cancel.always(),
            out.values@.len() == pos,
            out.valid@.len() == pos,
            forall|k: int|
                0 <= k < pos ==> #[trigger] cell_read(
                    body@,
                    slot_of(k, group as int, band as int),
                ) == Ok::<(u64, bool), Error>((out.values@[k], out.valid@[k])),
        decreases count - pos,
    {
        if pos % 4096 == 0 {
            check_cancel(cancel)?;
        }
        proof {
            let p = pos as int;
            let g = group as int;
            let n = count as int;
            assert((p + 1) * g <= n * g <= 65536 * 20) by (nonlinear_arith)
                requires
                    p + 1 <= n <= 65536,
                    1 <= g <= 20,
            ;
            assert(p * g >= 0) by (nonlinear_arith)
                requires
                    p >= 0,
                    g >= 1,
            ;
            assert((p + 1) * g == p * g + g) by (nonlinear_arith);
            assert(edge * edge * group * 9 == 9 * (n * g)) by (nonlinear_arith)
                requires
                    n == edge * edge,
                    g == group,
            ;
        }
        let at: usize = pos * group + slot;
        match read_cell(body, at) {
            Ok((value, valid)) => {
                out.values.push(value);
                out.valid.push(valid);
            },
            Err(e) => {
                assert(broken_at(body@, group as int, band as int, pos as int));
                return Err(e);
            },
        }
        pos += 1;
    }
    proof {
        assert forall|k: int| 0 <= k < edge * edge implies !#[trigger] broken_at(
            body@,
            group as int,
            band as int,
            k,
        ) by {
            assert(cell_read(body@, slot_of(k, group as int, band as int)) is Ok);
        }
    }
    Ok(out)
}

/// The cells of a band read back from a raw page as they were written: each cell of the tile
/// with its value where it is valid, and nothing where it is not.
pub proof fn a_band_reads_back(
    bands: Seq<TileBand>,
    p: Part,
    edge: int,
    group: int,
    band: int,
    row: int,
    col: int,
)
    requires
        1 <= group,
        0 <= band < bands.len(),
        0 <= row < p.height,
        0 <= col < p.width,
        p.width <= edge,
        p.height <= edge,
        bands[band].valid@[place(p, row, col)] ==> finite_bits(
            bands[band].values@[place(p, row, col)],
        ),
    ensures
        ({
            let body = raw_bytes(bands, p, edge, group, band / group, edge * edge * group);
            cell_read(body, slot_of(row * edge + col, group, band)) == Ok::<(u64, bool), Error>(
                if bands[band].valid@[place(p, row, col)] {
                    (bands[band].values@[place(p, row, col)], true)
                } else {
                    (0, false)
                },
            )
        }),
{
    let pos = row * edge + col;
    let i = slot_of(pos, group, band);
    a_slot_holds_its_band(bands, p, edge, group, band, row, col);
    crate::index::lemma_row_major(row, col, edge, edge);
    let n = edge * edge;
    let s = band % group;
    assert(pos * group >= 0) by (nonlinear_arith)
        requires
            pos >= 0,
            group >= 1,
    ;
    assert((pos + 1) * group <= n * group) by (nonlinear_arith)
        requires
            pos + 1 <= n,
            group >= 1,
    ;
    assert((pos + 1) * group == pos * group + group) by (nonlinear_arith);
    vstd::arithmetic::div_mod::lemma_mod_bound(band, group);
    raw_cells_read_back(bands, p, edge, group, band / group, n * group, i);
}

} // verus!
