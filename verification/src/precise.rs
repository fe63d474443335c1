//! Bounded exact-rational coverage for ill-conditioned, very small support.
//! Interpret submitted binary64 world coordinates and affine coefficients
//! exactly. Only final area fractions are rounded back to binary64.
use num_rational::BigRational;
use vstd::prelude::*;

use crate::cancel::{check_cancel, ended, Cancel};
use crate::error::Error;
use crate::rational::{
    amount, at_least, duplicate, exact, is_nothing, minus, nearest, over, plus, times, to_double,
    unsigned, value_of, whole,
};
use crate::skv_header::finite_bits;

verus! {

/// A point of the plane, in cells of the grid.
pub struct Point {
    x: BigRational,
    y: BigRational,
}

/// A ring of a polygon: its corners in world coordinates, and whether it bounds a hole.
pub struct Ring {
    pub points: Vec<(u64, u64)>,
    pub hole: bool,
}

/// A cell that the polygon covers, and how much of it, as the bits of a double.
#[derive(Clone, Copy, Debug, PartialEq, Eq, Structural)]
pub struct Cell {
    pub row: usize,
    pub col: usize,
    pub fraction: u64,
}

/// The affine coefficients of an axis-aligned grid: origin and cell size, as the bits of doubles.
#[derive(Clone, Copy, Debug, PartialEq, Eq, Structural)]
pub struct Axes {
    pub x_origin: u64,
    pub x_size: u64,
    pub y_origin: u64,
    pub y_size: u64,
}

impl Axes {
    /// Finite coefficients, and cells of some size.
    pub open spec fn wf(self) -> bool {
        &&& finite_bits(self.x_origin)
        &&& finite_bits(self.x_size)
        &&& finite_bits(self.y_origin)
        &&& finite_bits(self.y_size)
        &&& value_of(self.x_size) != 0real
        &&& value_of(self.y_size) != 0real
    }
}

impl Point {
    pub closed spec fn at(self) -> (real, real) {
        (amount(self.x), amount(self.y))
    }
}

/// Where points lie.
pub open spec fn shape(points: Seq<Point>) -> Seq<(real, real)> {
    Seq::new(points.len(), |i: int| points[i].at())
}

pub open spec fn coord(p: (real, real), axis: int) -> real {
    if axis == 0 {
        p.0
    } else {
        p.1
    }
}

/// A half plane of the clipping keeps a point.
pub open spec fn keeps(p: (real, real), axis: int, bound: real, greater: bool) -> bool {
    if greater {
        coord(p, axis) >= bound
    } else {
        coord(p, axis) <= bound
    }
}

/// Where the edge from `a` to `b` meets the bound.
pub open spec fn crossing(a: (real, real), b: (real, real), axis: int, bound: real) -> (
    real,
    real,
) {
    let t = (bound - coord(a, axis)) / (coord(b, axis) - coord(a, axis));
    if axis == 0 {
        (bound, a.1 + t * (b.1 - a.1))
    } else {
        (a.0 + t * (b.0 - a.0), bound)
    }
}

/// What clipping leaves of the edge from `a` to `b`: where it crosses the bound, and its end.
pub open spec fn edge_kept(
    a: (real, real),
    b: (real, real),
    axis: int,
    bound: real,
    greater: bool,
) -> Seq<(real, real)> {
    let cross = if keeps(a, axis, bound, greater) != keeps(b, axis, bound, greater) {
        seq![crossing(a, b, axis, bound)]
    } else {
        Seq::empty()
    };
    if keeps(b, axis, bound, greater) {
        cross.push(b)
    } else {
        cross
    }
}

/// The corner before corner `i` of a ring.
pub open spec fn previous(ring: Seq<(real, real)>, i: int) -> (real, real) {
    if i == 0 {
        ring[ring.len() - 1]
    } else {
        ring[i - 1]
    }
}

/// What clipping leaves of the first `n` edges of a ring.
pub open spec fn clipped_to(
    ring: Seq<(real, real)>,
    axis: int,
    bound: real,
    greater: bool,
    n: int,
) -> Seq<(real, real)>
    decreases n,
{
    if n <= 0 {
        Seq::empty()
    } else {
        clipped_to(ring, axis, bound, greater, n - 1) + edge_kept(
            previous(ring, n - 1),
            ring[n - 1],
            axis,
            bound,
            greater,
        )
    }
}

/// A ring, clipped to a half plane.
pub open spec fn clipped(ring: Seq<(real, real)>, axis: int, bound: real, greater: bool) -> Seq<
    (real, real),
> {
    clipped_to(ring, axis, bound, greater, ring.len() as int)
}

/// Twice the signed area over the first `n` edges of a ring, seen from its first corner.
pub open spec fn turned(ring: Seq<(real, real)>, n: int) -> real
    decreases n,
{
    if n <= 0 {
        0real
    } else {
        let o = ring[0];
        let a = previous(ring, n - 1);
        let b = ring[n - 1];
        turned(ring, n - 1) + ((a.0 - o.0) * (b.1 - o.1) - (b.0 - o.0) * (a.1 - o.1))
    }
}

pub open spec fn without_sign(v: real) -> real {
    if v < 0real {
        0real - v
    } else {
        v
    }
}

/// The area of a ring.
pub open spec fn area_of(ring: Seq<(real, real)>) -> real {
    if ring.len() < 3 {
        0real
    } else {
        without_sign(turned(ring, ring.len() as int)) / 2real
    }
}

/// The point where a corner lies on the grid.
pub open spec fn placed(axes: Axes, corner: (u64, u64)) -> (real, real) {
    (
        (value_of(corner.0) - value_of(axes.x_origin)) / value_of(axes.x_size),
        (value_of(corner.1) - value_of(axes.y_origin)) / value_of(axes.y_size),
    )
}

/// Where the corners of a ring lie on the grid.
pub open spec fn laid(axes: Axes, ring: Ring) -> Seq<(real, real)> {
    Seq::new(ring.points@.len(), |i: int| placed(axes, ring.points@[i]))
}

/// The strip of a ring between two rows.
pub open spec fn strip(ring: Seq<(real, real)>, row: int) -> Seq<(real, real)> {
    clipped(clipped(ring, 1, row as real, true), 1, (row + 1) as real, false)
}

/// The part of a ring in a cell.
pub open spec fn in_cell(ring: Seq<(real, real)>, row: int, col: int) -> Seq<(real, real)> {
    clipped(clipped(strip(ring, row), 0, col as real, true), 0, (col + 1) as real, false)
}

/// A share that a ring adds, or takes where it bounds a hole.
pub open spec fn signed(v: real, hole: bool) -> real {
    if hole {
        0real - v
    } else {
        v
    }
}

/// How much of a cell the first `n` rings cover.
pub open spec fn covered(axes: Axes, rings: Seq<Ring>, row: int, col: int, n: int) -> real
    decreases n,
{
    if n <= 0 {
        0real
    } else {
        covered(axes, rings, row, col, n - 1) + signed(
            area_of(in_cell(laid(axes, rings[n - 1]), row, col)),
            rings[n - 1].hole,
        )
    }
}

/// The area of the first `n` rings.
pub open spec fn area_to(axes: Axes, rings: Seq<Ring>, n: int) -> real
    decreases n,
{
    if n <= 0 {
        0real
    } else {
        area_to(axes, rings, n - 1) + signed(area_of(laid(axes, rings[n - 1])), rings[n - 1].hole)
    }
}

/// A double is above zero.
pub open spec fn positive(bits: u64) -> bool {
    0 < bits <= 0x7ff0_0000_0000_0000
}

/// What a covered share of a cell gives: nothing where it is zero, else its double.
pub open spec fn share(v: real) -> Result<Option<u64>, Error> {
    if !(0real <= v && v <= 1real) {
        Err(Error::ExactCoverage)
    } else if v == 0real {
        Ok(None)
    } else {
        match nearest(v) {
            None => Err(Error::ExactFraction),
            Some(bits) => if positive(bits) {
                Ok(Some(bits))
            } else {
                Err(Error::CoveragePrecision)
            },
        }
    }
}

/// The covered cells of one row, up to the column `col`.
pub open spec fn row_cells(axes: Axes, rings: Seq<Ring>, row: int, xmin: int, col: int) -> Result<
    Seq<Cell>,
    Error,
>
    decreases col - xmin,
{
    if col <= xmin {
        Ok(Seq::empty())
    } else {
        match row_cells(axes, rings, row, xmin, col - 1) {
            Err(e) => Err(e),
            Ok(cells) => match share(covered(axes, rings, row, col - 1, rings.len() as int)) {
                Err(e) => Err(e),
                Ok(None) => Ok(cells),
                Ok(Some(fraction)) => Ok(
                    cells.push(Cell { row: row as usize, col: (col - 1) as usize, fraction }),
                ),
            },
        }
    }
}

/// The covered cells of the rows up to `row`.
pub open spec fn cells_to(
    axes: Axes,
    rings: Seq<Ring>,
    xmin: int,
    xmax: int,
    lo: int,
    row: int,
) -> Result<Seq<Cell>, Error>
    decreases row - lo,
{
    if row <= lo {
        Ok(Seq::empty())
    } else {
        match cells_to(axes, rings, xmin, xmax, lo, row - 1) {
            Err(e) => Err(e),
            Ok(cells) => match row_cells(axes, rings, row - 1, xmin, xmax) {
                Err(e) => Err(e),
                Ok(more) => Ok(cells + more),
            },
        }
    }
}

/// The budgets that a window of cells and a number of corners must keep to.
pub open spec fn budget_refusal(cells: int, vertices: int, max_bytes: int) -> Option<Error> {
    if cells > usize::MAX {
        Some(Error::PrecisionWorkOverflow)
    } else if cells > 100000 || cells * vertices > 1000000 {
        Some(Error::PrecisionWork)
    } else if vertices * 4096 + cells * 48 > max_bytes && max_bytes < usize::MAX {
        Some(Error::PrecisionMemory)
    } else {
        None
    }
}

/// The covered cells of a window, and the area of the polygon.
pub open spec fn coverage_of(
    axes: Axes,
    rings: Seq<Ring>,
    bounds: (int, int, int, int),
    vertices: int,
    max_bytes: int,
) -> Result<(Seq<Cell>, u64), Error> {
    let cells = (bounds.1 - bounds.0) * (bounds.3 - bounds.2);
    match budget_refusal(cells, vertices, max_bytes) {
        Some(e) => Err(e),
        None => match cells_to(axes, rings, bounds.0, bounds.1, bounds.2, bounds.3) {
            Err(e) => Err(e),
            Ok(cells) => match nearest(area_to(axes, rings, rings.len() as int)) {
                None => Err(Error::ExactArea),
                Some(area) => Ok((cells, area)),
            },
        },
    }
}

fn keeps_point(p: &Point, axis: usize, bound: &BigRational, greater: bool) -> (r: bool)
    ensures
        r == keeps(p.at(), axis as int, amount(*bound), greater),
{
    if axis == 0 {
        if greater {
            at_least(&p.x, bound)
        } else {
            at_least(bound, &p.x)
        }
    } else {
        if greater {
            at_least(&p.y, bound)
        } else {
            at_least(bound, &p.y)
        }
    }
}

fn same_point(p: &Point) -> (r: Point)
    ensures
        r.at() == p.at(),
{
    Point { x: duplicate(&p.x), y: duplicate(&p.y) }
}

fn crossed(a: &Point, b: &Point, axis: usize, bound: &BigRational) -> (r: Point)
    requires
        coord(a.at(), axis as int) != coord(b.at(), axis as int),
    ensures
        r.at() == crossing(a.at(), b.at(), axis as int, amount(*bound)),
{
    if axis == 0 {
        let t = over(&minus(bound, &a.x), &minus(&b.x, &a.x));
        Point { x: duplicate(bound), y: plus(&a.y, &times(&t, &minus(&b.y, &a.y))) }
    } else {
        let t = over(&minus(bound, &a.y), &minus(&b.y, &a.y));
        Point { x: plus(&a.x, &times(&t, &minus(&b.x, &a.x))), y: duplicate(bound) }
    }
}

fn clip<C: Cancel>(input: &Vec<Point>, axis: usize, value: usize, greater: bool, cancel: &C) -> (r:
    Result<Vec<Point>, Error>)
    requires
        axis <= 1,
    ensures
        ended(
            cancel,
            r,
            r is Ok && shape(r->Ok_0@) == clipped(
                shape(input@),
                axis as int,
                value as real,
                greater,
            ),
        ),
{
    check_cancel(cancel)?;
    let mut output: Vec<Point> = Vec::new();
    if input.len() == 0 {
        assert(shape(output@) =~= Seq::empty());
        return Ok(output);
    }
    let bound = whole(value as i128);
    let ghost ring = shape(input@);
    let total: usize = input.len();
    let mut last: usize = total - 1;
    let mut i: usize = 0;
    assert(shape(output@) =~= Seq::empty());
    while i < total
        invariant
            axis <= 1,
            total == input@.len(),
            total > 0,
            i <= total,
            ring == shape(input@),
            amount(bound) == value as real,
            last < total,
            i == 0 ==> last == total - 1,
            i > 0 ==> last == i - 1,
            !cancel.always(),
            shape(output@) == clipped_to(ring, axis as int, value as real, greater, i as int),
        decreases total - i,
    {
        if i % 64 == 0 {
            check_cancel(cancel)?;
        }
        let a = &input[last];
        let b = &input[i];
        let ghost v = value as real;
        assert(ring[i as int] == b.at());
        assert(previous(ring, i as int) == a.at());
        let ghost before = shape(output@);
        let ka = keeps_point(a, axis, &bound, greater);
        let kb = keeps_point(b, axis, &bound, greater);
        if ka != kb {
            let p = crossed(a, b, axis, &bound);
            output.push(p);
            assert(shape(output@) =~= before.push(crossing(a.at(), b.at(), axis as int, v)));
        }
        let ghost middle = shape(output@);
        if kb {
            output.push(same_point(b));
            assert(shape(output@) =~= middle.push(b.at()));
        }
        assert(shape(output@) =~= before + edge_kept(a.at(), b.at(), axis as int, v, greater));
        last = i;
        i += 1;
    }
    Ok(output)
}

fn area<C: Cancel>(points: &Vec<Point>, cancel: &C) -> (r: Result<BigRational, Error>)
    ensures
        ended(cancel, r, r is Ok && amount(r->Ok_0) == area_of(shape(points@))),
{
    check_cancel(cancel)?;
    let total: usize = points.len();
    if total < 3 {
        return Ok(whole(0));
    }
    let ghost ring = shape(points@);
    let origin = &points[0];
    let mut sum = whole(0);
    let mut last: usize = total - 1;
    let mut i: usize = 0;
    while i < total
        invariant
            total == points@.len(),
            total >= 3,
            i <= total,
            ring == shape(points@),
            *origin == points@[0],
            last < total,
            i == 0 ==> last == total - 1,
            i > 0 ==> last == i - 1,
            !cancel.always(),
            amount(sum) == turned(ring, i as int),
        decreases total - i,
    {
        if i % 64 == 0 {
            check_cancel(cancel)?;
        }
        let a = &points[last];
        let b = &points[i];
        assert(ring[i as int] == b.at() && ring[0] == origin.at());
        assert(previous(ring, i as int) == a.at());
        let left = times(&minus(&a.x, &origin.x), &minus(&b.y, &origin.y));
        let right = times(&minus(&b.x, &origin.x), &minus(&a.y, &origin.y));
        sum = plus(&sum, &minus(&left, &right));
        last = i;
        i += 1;
    }
    Ok(over(&unsigned(&sum), &whole(2)))
}

/// Where the corners of a ring lie on the grid.
fn lay<C: Cancel>(axes: Axes, ring: &Ring, cancel: &C) -> (r: Result<Vec<Point>, Error>)
    requires
        axes.wf(),
        finite_ring(*ring),
    ensures
        r == Err::<Vec<Point>, Error>(Error::Cancelled) ==> !cancel.never(),
        r != Err::<Vec<Point>, Error>(Error::Cancelled) ==> r is Ok && shape(r->Ok_0@) == laid(
            axes,
            *ring,
        ),
{
    let x_origin = exact(axes.x_origin);
    let x_size = exact(axes.x_size);
    let y_origin = exact(axes.y_origin);
    let y_size = exact(axes.y_size);
    let total: usize = ring.points.len();
    let mut points: Vec<Point> = Vec::new();
    let mut i: usize = 0;
    while i < total
        invariant
            total == ring.points@.len(),
            i <= total,
            axes.wf(),
            finite_ring(*ring),
            points@.len() == i,
            amount(x_origin) == value_of(axes.x_origin),
            amount(x_size) == value_of(axes.x_size),
            amount(y_origin) == value_of(axes.y_origin),
            amount(y_size) == value_of(axes.y_size),
            forall|k: int| 0 <= k < i ==> (#[trigger] points@[k]).at() == placed(
                axes,
                ring.points@[k],
            ),
        decreases total - i,
    {
        if i % 64 == 0 {
            check_cancel(cancel)?;
        }
        let corner: (u64, u64) = ring.points[i];
        assert(finite_bits(ring.points@[i as int].0));
        points.push(
            Point {
                x: over(&minus(&exact(corner.0), &x_origin), &x_size),
                y: over(&minus(&exact(corner.1), &y_origin), &y_size),
            },
        );
        i += 1;
    }
    assert(shape(points@) =~= laid(axes, *ring));
    Ok(points)
}

/// Every corner of a ring is finite.
pub open spec fn finite_ring(ring: Ring) -> bool {
    forall|i: int|
        0 <= i < ring.points@.len() ==> finite_bits((#[trigger] ring.points@[i]).0) && finite_bits(
            ring.points@[i].1,
        )
}

pub open spec fn finite_rings(rings: Seq<Ring>) -> bool {
    forall|i: int| 0 <= i < rings.len() ==> finite_ring(#[trigger] rings[i])
}

/// A laid ring, and whether it bounds a hole.
struct Laid {
    points: Vec<Point>,
    hole: bool,
}

spec fn rings_laid(axes: Axes, rings: Seq<Ring>, laid_rings: Seq<Laid>, n: int) -> bool {
    &&& laid_rings.len() == n
    &&& forall|i: int|
        0 <= i < n ==> shape((#[trigger] laid_rings[i]).points@) == laid(axes, rings[i])
            && laid_rings[i].hole == rings[i].hole
}

spec fn strips_laid(axes: Axes, rings: Seq<Ring>, strips: Seq<Laid>, row: int, n: int) -> bool {
    &&& strips.len() == n
    &&& forall|i: int|
        0 <= i < n ==> shape((#[trigger] strips[i]).points@) == strip(laid(axes, rings[i]), row)
            && strips[i].hole == rings[i].hole
}

fn lay_all<C: Cancel>(axes: Axes, rings: &Vec<Ring>, cancel: &C) -> (r: Result<Vec<Laid>, Error>)
    requires
        axes.wf(),
        finite_rings(rings@),
    ensures
        r == Err::<Vec<Laid>, Error>(Error::Cancelled) ==> !cancel.never(),
        r != Err::<Vec<Laid>, Error>(Error::Cancelled) ==> r is Ok && rings_laid(
            axes,
            rings@,
            r->Ok_0@,
            rings@.len() as int,
        ),
{
    let mut out: Vec<Laid> = Vec::new();
    let mut i: usize = 0;
    while i < rings.len()
        invariant
            axes.wf(),
            finite_rings(rings@),
            i <= rings@.len(),
            rings_laid(axes, rings@, out@, i as int),
        decreases rings.len() - i,
    {
        let ring = &rings[i];
        assert(finite_ring(rings@[i as int]));
        let points = lay(axes, ring, cancel)?;
        out.push(Laid { points, hole: ring.hole });
        i += 1;
    }
    Ok(out)
}

fn add_share(sum: &BigRational, value: &BigRational, hole: bool) -> (r: BigRational)
    ensures
        amount(r) == amount(*sum) + signed(amount(*value), hole),
{
    if hole {
        minus(sum, value)
    } else {
        plus(sum, value)
    }
}

fn total_area<C: Cancel>(axes: Axes, rings: &Vec<Ring>, laid_rings: &Vec<Laid>, cancel: &C) -> (r:
    Result<BigRational, Error>)
    requires
        rings_laid(axes, rings@, laid_rings@, rings@.len() as int),
    ensures
        r == Err::<BigRational, Error>(Error::Cancelled) ==> !cancel.never(),
        r != Err::<BigRational, Error>(Error::Cancelled) ==> r is Ok && amount(r->Ok_0) == area_to(
            axes,
            rings@,
            rings@.len() as int,
        ),
{
    let mut sum = whole(0);
    let mut i: usize = 0;
    while i < laid_rings.len()
        invariant
            rings_laid(axes, rings@, laid_rings@, rings@.len() as int),
            i <= laid_rings@.len(),
            amount(sum) == area_to(axes, rings@, i as int),
        decreases laid_rings.len() - i,
    {
        let ring = &laid_rings[i];
        let value = area(&ring.points, cancel)?;
        sum = add_share(&sum, &value, ring.hole);
        i += 1;
    }
    Ok(sum)
}

fn row_strips<C: Cancel>(
    axes: Axes,
    rings: Ghost<Seq<Ring>>,
    laid_rings: &Vec<Laid>,
    row: usize,
    cancel: &C,
) -> (r: Result<Vec<Laid>, Error>)
    requires
        rings_laid(axes, rings@, laid_rings@, rings@.len() as int),
        row < usize::MAX,
    ensures
        r == Err::<Vec<Laid>, Error>(Error::Cancelled) ==> !cancel.never(),
        r != Err::<Vec<Laid>, Error>(Error::Cancelled) ==> r is Ok && strips_laid(
            axes,
            rings@,
            r->Ok_0@,
            row as int,
            rings@.len() as int,
        ),
{
    let mut out: Vec<Laid> = Vec::new();
    let mut i: usize = 0;
    while i < laid_rings.len()
        invariant
            rings_laid(axes, rings@, laid_rings@, rings@.len() as int),
            row < usize::MAX,
            i <= laid_rings@.len(),
            strips_laid(axes, rings@, out@, row as int, i as int),
        decreases laid_rings.len() - i,
    {
        let ring = &laid_rings[i];
        let above = clip(&ring.points, 1, row, true, cancel)?;
        let points = clip(&above, 1, row + 1, false, cancel)?;
        out.push(Laid { points, hole: ring.hole });
        i += 1;
    }
    Ok(out)
}

fn cell_share<C: Cancel>(
    axes: Axes,
    rings: Ghost<Seq<Ring>>,
    strips: &Vec<Laid>,
    row: Ghost<int>,
    col: usize,
    cancel: &C,
) -> (r: Result<Option<u64>, Error>)
    requires
        strips_laid(axes, rings@, strips@, row@, rings@.len() as int),
        col < usize::MAX,
    ensures
        r == Err::<Option<u64>, Error>(Error::Cancelled) ==> !cancel.never(),
        r != Err::<Option<u64>, Error>(Error::Cancelled) ==> r == share(
            covered(axes, rings@, row@, col as int, rings@.len() as int),
        ),
{
    let mut sum = whole(0);
    let mut i: usize = 0;
    while i < strips.len()
        invariant
            strips_laid(axes, rings@, strips@, row@, rings@.len() as int),
            col < usize::MAX,
            i <= strips@.len(),
            amount(sum) == covered(axes, rings@, row@, col as int, i as int),
        decreases strips.len() - i,
    {
        let ring = &strips[i];
        let right = clip(&ring.points, 0, col, true, cancel)?;
        let part = clip(&right, 0, col + 1, false, cancel)?;
        let value = area(&part, cancel)?;
        assert(shape(part@) == in_cell(laid(axes, rings@[i as int]), row@, col as int));
        sum = add_share(&sum, &value, ring.hole);
        i += 1;
    }
    if !at_least(&sum, &whole(0)) || !at_least(&whole(1), &sum) {
        return Err(Error::ExactCoverage);
    }
    if is_nothing(&sum) {
        return Ok(None);
    }
    match to_double(&sum) {
        None => Err(Error::ExactFraction),
        Some(bits) => if bits > 0 && bits <= 0x7ff0_0000_0000_0000 {
            Ok(Some(bits))
        } else {
            Err(Error::CoveragePrecision)
        },
    }
}

fn scan_cells<C: Cancel>(
    axes: Axes,
    rings: Ghost<Seq<Ring>>,
    strips: &Vec<Laid>,
    row: usize,
    xmin: usize,
    xmax: usize,
    cancel: &C,
) -> (r: Result<Vec<Cell>, Error>)
    requires
        strips_laid(axes, rings@, strips@, row as int, rings@.len() as int),
        xmin <= xmax,
    ensures
        r == Err::<Vec<Cell>, Error>(Error::Cancelled) ==> !cancel.never(),
        r != Err::<Vec<Cell>, Error>(Error::Cancelled) ==> match r {
            Ok(cells) => row_cells(axes, rings@, row as int, xmin as int, xmax as int) == Ok::<
                Seq<Cell>,
                Error,
            >(cells@),
            Err(e) => row_cells(axes, rings@, row as int, xmin as int, xmax as int) == Err::<
                Seq<Cell>,
                Error,
            >(e),
        },
{
    let mut cells: Vec<Cell> = Vec::new();
    let mut col: usize = xmin;
    while col < xmax
        invariant
            strips_laid(axes, rings@, strips@, row as int, rings@.len() as int),
            xmin <= col <= xmax,
            row_cells(axes, rings@, row as int, xmin as int, col as int) == Ok::<Seq<Cell>, Error>(
                cells@,
            ),
        decreases xmax - col,
    {
        if col % 64 == 0 {
            check_cancel(cancel)?;
        }
        match cell_share(axes, rings, strips, Ghost(row as int), col, cancel) {
            Err(e) => {
                proof {
                    if e != Error::Cancelled {
                        lemma_row_fails(axes, rings@, row as int, xmin as int, col + 1, xmax as int, e);
                    }
                }
                return Err(e);
            },
            Ok(None) => {},
            Ok(Some(fraction)) => {
                cells.push(Cell { row, col, fraction });
            },
        }
        col += 1;
    }
    Ok(cells)
}

proof fn lemma_row_fails(
    axes: Axes,
    rings: Seq<Ring>,
    row: int,
    xmin: int,
    col: int,
    xmax: int,
    e: Error,
)
    requires
        xmin <= col <= xmax,
        row_cells(axes, rings, row, xmin, col) == Err::<Seq<Cell>, Error>(e),
    ensures
        row_cells(axes, rings, row, xmin, xmax) == Err::<Seq<Cell>, Error>(e),
    decreases xmax - col,
{
    if col < xmax {
        lemma_row_fails(axes, rings, row, xmin, col + 1, xmax, e);
    }
}

proof fn lemma_cells_fail(
    axes: Axes,
    rings: Seq<Ring>,
    xmin: int,
    xmax: int,
    lo: int,
    row: int,
    hi: int,
    e: Error,
)
    requires
        lo <= row <= hi,
        cells_to(axes, rings, xmin, xmax, lo, row) == Err::<Seq<Cell>, Error>(e),
    ensures
        cells_to(axes, rings, xmin, xmax, lo, hi) == Err::<Seq<Cell>, Error>(e),
    decreases hi - row,
{
    if row < hi {
        lemma_cells_fail(axes, rings, xmin, xmax, lo, row + 1, hi, e);
    }
}

fn scan_rows<C: Cancel>(
    axes: Axes,
    rings: Ghost<Seq<Ring>>,
    laid_rings: &Vec<Laid>,
    bounds: (usize, usize, usize, usize),
    cancel: &C,
) -> (r: Result<Vec<Cell>, Error>)
    requires
        rings_laid(axes, rings@, laid_rings@, rings@.len() as int),
        bounds.0 <= bounds.1,
        bounds.2 <= bounds.3,
    ensures
        r == Err::<Vec<Cell>, Error>(Error::Cancelled) ==> !cancel.never(),
        r != Err::<Vec<Cell>, Error>(Error::Cancelled) ==> ({
            let expected = cells_to(
                axes,
                rings@,
                bounds.0 as int,
                bounds.1 as int,
                bounds.2 as int,
                bounds.3 as int,
            );
            match r {
                Ok(cells) => expected == Ok::<Seq<Cell>, Error>(cells@),
                Err(e) => expected == Err::<Seq<Cell>, Error>(e),
            }
        }),
{
    let (xmin, xmax, lo, hi) = bounds;
    let mut cells: Vec<Cell> = Vec::new();
    let mut row: usize = lo;
    while row < hi
        invariant
            rings_laid(axes, rings@, laid_rings@, rings@.len() as int),
            xmin <= xmax,
            bounds == (xmin, xmax, lo, hi),
            lo <= row <= hi,
            cells_to(axes, rings@, xmin as int, xmax as int, lo as int, row as int) == Ok::<
                Seq<Cell>,
                Error,
            >(cells@),
        decreases hi - row,
    {
        check_cancel(cancel)?;
        let strips = row_strips(axes, rings, laid_rings, row, cancel)?;
        match scan_cells(axes, rings, &strips, row, xmin, xmax, cancel) {
            Err(e) => {
                proof {
                    if e != Error::Cancelled {
                        lemma_cells_fail(
                            axes,
                            rings@,
                            xmin as int,
                            xmax as int,
                            lo as int,
                            row + 1,
                            hi as int,
                            e,
                        );
                    }
                }
                return Err(e);
            },
            Ok(more) => {
                let mut more = more;
                cells.append(&mut more);
            },
        }
        row += 1;
    }
    Ok(cells)
}

/// The cells of the window `bounds` (first and last column, first and last row, the last ones
/// left out) that the polygon of `rings` covers, each with the covered share, and the area of the
/// polygon.
pub fn coverage<C: Cancel>(
    axes: Axes,
    rings: &Vec<Ring>,
    bounds: (usize, usize, usize, usize),
    vertices: usize,
    max_bytes: usize,
    cancel: &C,
) -> (r: Result<(Vec<Cell>, u64), Error>)
    requires
        axes.wf(),
        finite_rings(rings@),
        bounds.0 <= bounds.1,
        bounds.2 <= bounds.3,
    ensures
        ({
            let expected = coverage_of(
                axes,
                rings@,
                (bounds.0 as int, bounds.1 as int, bounds.2 as int, bounds.3 as int),
                vertices as int,
                max_bytes as int,
            );
            ended(
                cancel,
                r,
                match r {
                    Ok(found) => expected == Ok::<(Seq<Cell>, u64), Error>((found.0@, found.1)),
                    Err(e) => expected == Err::<(Seq<Cell>, u64), Error>(e),
                },
            )
        }),
{
    check_cancel(cancel)?;
    let (xmin, xmax, lo, hi) = bounds;
    let cells: usize = match (xmax - xmin).checked_mul(hi - lo) {
        Some(cells) => cells,
        None => {
            return Err(Error::PrecisionWorkOverflow);
        },
    };
    if cells > 100000 {
        return Err(Error::PrecisionWork);
    }
    match cells.checked_mul(vertices) {
        Some(n) => {
            if n > 1000000 {
                return Err(Error::PrecisionWork);
            }
        },
        None => {
            return Err(Error::PrecisionWork);
        },
    }
    let needed: u128 = vertices as u128 * 4096 + cells as u128 * 48;
    if needed > max_bytes as u128 && max_bytes < usize::MAX {
        return Err(Error::PrecisionMemory);
    }
    let laid_rings = lay_all(axes, rings, cancel)?;
    let polygon = total_area(axes, rings, &laid_rings, cancel)?;
    let found = scan_rows(axes, Ghost(rings@), &laid_rings, bounds, cancel)?;
    match to_double(&polygon) {
        None => Err(Error::ExactArea),
        Some(area) => Ok((found, area)),
    }
}

/// Clipping leaves only points that the half plane keeps.
pub proof fn clipping_keeps_to_the_half_plane(
    ring: Seq<(real, real)>,
    axis: int,
    bound: real,
    greater: bool,
    n: int,
    i: int,
)
    requires
        0 <= n <= ring.len(),
        0 <= i < clipped_to(ring, axis, bound, greater, n).len(),
    ensures
        keeps(clipped_to(ring, axis, bound, greater, n)[i], axis, bound, greater),
    decreases n,
{
    let before = clipped_to(ring, axis, bound, greater, n - 1);
    if i < before.len() {
        clipping_keeps_to_the_half_plane(ring, axis, bound, greater, n - 1, i);
    }
}

/// Clipping leaves a ring as it is where the half plane keeps all of its corners.
pub proof fn a_kept_ring_is_left_as_it_is(
    ring: Seq<(real, real)>,
    axis: int,
    bound: real,
    greater: bool,
)
    requires
        forall|i: int| 0 <= i < ring.len() ==> keeps(#[trigger] ring[i], axis, bound, greater),
    ensures
        clipped(ring, axis, bound, greater) == ring,
{
    lemma_kept(ring, axis, bound, greater, ring.len() as int);
    assert(ring.take(ring.len() as int) =~= ring);
}

proof fn lemma_kept(ring: Seq<(real, real)>, axis: int, bound: real, greater: bool, n: int)
    requires
        forall|i: int| 0 <= i < ring.len() ==> keeps(#[trigger] ring[i], axis, bound, greater),
        0 <= n <= ring.len(),
    ensures
        clipped_to(ring, axis, bound, greater, n) == ring.take(n),
    decreases n,
{
    if n > 0 {
        lemma_kept(ring, axis, bound, greater, n - 1);
        assert(keeps(ring[n - 1], axis, bound, greater));
        assert(keeps(previous(ring, n - 1), axis, bound, greater));
        assert(edge_kept(previous(ring, n - 1), ring[n - 1], axis, bound, greater) =~= seq![
            ring[n - 1],
        ]);
    }
    assert(clipped_to(ring, axis, bound, greater, n) =~= ring.take(n));
}

/// A ring has the same area wherever the grid's origin is put.
pub proof fn area_does_not_move(ring: Seq<(real, real)>, dx: real, dy: real)
    ensures
        area_of(moved(ring, dx, dy)) == area_of(ring),
{
    if ring.len() > 0 {
        lemma_moved(ring, dx, dy, ring.len() as int);
    }
}

/// A ring, moved.
pub open spec fn moved(ring: Seq<(real, real)>, dx: real, dy: real) -> Seq<(real, real)> {
    Seq::new(ring.len(), |i: int| (ring[i].0 + dx, ring[i].1 + dy))
}

proof fn lemma_moved(ring: Seq<(real, real)>, dx: real, dy: real, n: int)
    requires
        0 <= n <= ring.len(),
        ring.len() > 0,
    ensures
        turned(moved(ring, dx, dy), n) == turned(ring, n),
    decreases n,
{
    if n > 0 {
        lemma_moved(ring, dx, dy, n - 1);
        let m = moved(ring, dx, dy);
        let o = ring[0];
        let a = previous(ring, n - 1);
        let b = ring[n - 1];
        let p = previous(m, n - 1);
        assert(m[0].0 == o.0 + dx && m[0].1 == o.1 + dy);
        assert(p.0 == a.0 + dx && p.1 == a.1 + dy);
        assert(m[n - 1].0 == b.0 + dx && m[n - 1].1 == b.1 + dy);
        assert(p.0 - m[0].0 == a.0 - o.0);
        assert(p.1 - m[0].1 == a.1 - o.1);
        assert(m[n - 1].0 - m[0].0 == b.0 - o.0);
        assert(m[n - 1].1 - m[0].1 == b.1 - o.1);
    }
}

} // verus!
