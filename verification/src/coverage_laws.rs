//! What coverage says of plain shapes, of holes, and of the cells that are listed.
use vstd::prelude::*;

use crate::algebra::{
    lemma_minus, lemma_nothing, lemma_product_sign, lemma_quotient, lemma_turned,
};
use crate::convex_laws::cross;
use crate::error::Error;
use crate::precise::{
    area_of, area_to, budget_refusal, cells_to, clipped, clipped_to, coverage_of,
    covered,
    crossing, edge_kept, in_cell, keeps, laid, placed, positive, previous, row_cells, share, turned,
    without_sign, Axes, Cell, Ring,
};
use crate::precise_laws::Spot;
use crate::rational::{nearest, value_of};

verus! {

/// The area of a triangle is half of what two of its sides span.
pub proof fn the_area_of_a_triangle(a: Spot, b: Spot, c: Spot)
    ensures
        area_of(seq![a, b, c]) == without_sign(cross(a, b, c)) / 2real,
{
    let ring = seq![a, b, c];
    reveal_with_fuel(turned, 4);
    lemma_nothing(0real);
    lemma_nothing(b.0 - a.0);
    lemma_nothing(b.1 - a.1);
    lemma_nothing(c.0 - a.0);
    lemma_nothing(c.1 - a.1);
    lemma_turned(c.0 - a.0, 0real);
    lemma_turned(b.0 - a.0, 0real);
    assert(ring[0] == a && ring[1] == b && ring[2] == c);
}

/// The corners of a box, from its least corner on.
pub open spec fn box_ring(x0: real, x1: real, y0: real, y1: real) -> Seq<Spot> {
    seq![(x0, y0), (x1, y0), (x1, y1), (x0, y1)]
}

/// The same, one corner later.
spec fn box_later(x0: real, x1: real, y0: real, y1: real) -> Seq<Spot> {
    seq![(x0, y1), (x0, y0), (x1, y0), (x1, y1)]
}

/// The same, two corners later.
spec fn box_last(x0: real, x1: real, y0: real, y1: real) -> Seq<Spot> {
    seq![(x1, y1), (x0, y1), (x0, y0), (x1, y0)]
}

/// Twice the area of a ring of four corners.
proof fn lemma_four(p: Spot, q: Spot, r: Spot, s: Spot)
    ensures
        turned(seq![p, q, r, s], 4) == cross(p, q, r) + cross(p, r, s),
{
    let ring = seq![p, q, r, s];
    reveal_with_fuel(turned, 5);
    lemma_nothing(0real);
    lemma_nothing(q.0 - p.0);
    lemma_nothing(q.1 - p.1);
    lemma_nothing(s.0 - p.0);
    lemma_nothing(s.1 - p.1);
    lemma_turned(s.0 - p.0, 0real);
    lemma_turned(q.0 - p.0, 0real);
    assert(ring[0] == p && ring[1] == q && ring[2] == r && ring[3] == s);
}

proof fn lemma_box_area(x0: real, x1: real, y0: real, y1: real)
    requires
        x0 <= x1,
        y0 <= y1,
    ensures
        area_of(box_ring(x0, x1, y0, y1)) == (x1 - x0) * (y1 - y0),
        area_of(box_later(x0, x1, y0, y1)) == (x1 - x0) * (y1 - y0),
        area_of(box_last(x0, x1, y0, y1)) == (x1 - x0) * (y1 - y0),
{
    let w = x1 - x0;
    let h = y1 - y0;
    lemma_product_sign(w, h);
    lemma_nothing(w);
    lemma_nothing(h);
    lemma_nothing(0real);
    lemma_turned(w, 0real);
    lemma_turned(h, 0real);
    lemma_minus(w, 0real, h);
    lemma_minus(h, 0real, w);
    lemma_minus(0real - w, 0real, h);
    lemma_nothing(0real - w);
    lemma_turned(0real - w, 0real);
    lemma_nothing(0real - h);
    lemma_turned(0real - h, 0real);
    lemma_turned(w, h);
    assert(x0 - x1 == 0real - w && y0 - y1 == 0real - h);
    let a = (x0, y0);
    let b = (x1, y0);
    let c = (x1, y1);
    let d = (x0, y1);
    lemma_four(a, b, c, d);
    lemma_four(d, a, b, c);
    lemma_four(c, d, a, b);
    assert(cross(a, b, c) == w * h);
    assert(cross(a, c, d) == w * h);
    assert(cross(d, a, b) == 0real * (y0 - y1) - (x1 - x0) * (y0 - y1));
    assert(cross(d, b, c) == (x1 - x0) * (y1 - y1) - (x1 - x0) * (y0 - y1));
    assert(cross(c, d, a) == (x0 - x1) * (y0 - y1) - (x0 - x1) * (y1 - y1));
    assert(cross(c, a, b) == (x0 - x1) * (y0 - y1) - (x1 - x1) * (y0 - y1));
}

/// The area of a box is its width times its height.
pub proof fn the_area_of_a_box(x0: real, x1: real, y0: real, y1: real)
    requires
        x0 <= x1,
        y0 <= y1,
    ensures
        area_of(box_ring(x0, x1, y0, y1)) == (x1 - x0) * (y1 - y0),
{
    lemma_box_area(x0, x1, y0, y1);
}

/// A ring that is closed by its first corner has the area of the open one.
pub proof fn closing_a_ring_keeps_its_area(ring: Seq<Spot>)
    requires
        ring.len() >= 3,
    ensures
        area_of(ring.push(ring[0])) == area_of(ring),
{
    lemma_closed(ring, ring.len() as int);
    let c = ring.push(ring[0]);
    let n = ring.len() as int;
    let o = ring[0];
    let a = ring[n - 1];
    lemma_nothing(a.0 - o.0);
    lemma_nothing(a.1 - o.1);
    lemma_turned(a.0 - o.0, 0real);
    assert(previous(c, n) == a && c[n] == o && c[0] == o);
    assert(turned(c, n + 1) == turned(c, n));
}

proof fn lemma_closed(ring: Seq<Spot>, n: int)
    requires
        ring.len() >= 1,
        0 <= n <= ring.len(),
    ensures
        turned(ring.push(ring[0]), n) == turned(ring, n),
    decreases n,
{
    let c = ring.push(ring[0]);
    let o = ring[0];
    if n > 1 {
        lemma_closed(ring, n - 1);
        assert(previous(c, n - 1) == previous(ring, n - 1));
        assert(c[n - 1] == ring[n - 1]);
    } else if n == 1 {
        lemma_closed(ring, 0);
        let a = ring.last();
        lemma_nothing(0real);
        lemma_nothing(a.0 - o.0);
        lemma_nothing(a.1 - o.1);
        lemma_turned(a.0 - o.0, 0real);
        assert(previous(c, 0) == o && c[0] == o);
        assert(previous(ring, 0) == a);
    }
}

/// What clipping leaves of four edges.
proof fn lemma_clip_four(
    p: Spot,
    q: Spot,
    r: Spot,
    s: Spot,
    axis: int,
    bound: real,
    greater: bool,
)
    ensures
        clipped(seq![p, q, r, s], axis, bound, greater) == edge_kept(s, p, axis, bound, greater)
            + edge_kept(p, q, axis, bound, greater) + edge_kept(q, r, axis, bound, greater)
            + edge_kept(r, s, axis, bound, greater),
{
    let ring = seq![p, q, r, s];
    reveal_with_fuel(clipped_to, 5);
    assert(ring[0] == p && ring[1] == q && ring[2] == r && ring[3] == s);
    let e = edge_kept(s, p, axis, bound, greater);
    assert(Seq::<Spot>::empty() + e =~= e);
}

/// An edge along an axis meets a bound where it has its other coordinate.
proof fn lemma_straight(a: Spot, b: Spot, axis: int, bound: real)
    requires
        (axis == 0 && a.1 == b.1) || (axis == 1 && a.0 == b.0),
    ensures
        crossing(a, b, axis, bound) == (if axis == 0 {
            (bound, a.1)
        } else {
            (a.0, bound)
        }),
{
    let ca = if axis == 0 {
        a.0
    } else {
        a.1
    };
    let cb = if axis == 0 {
        b.0
    } else {
        b.1
    };
    let t = (bound - ca) / (cb - ca);
    lemma_nothing(t);
    lemma_turned(t, 0real);
}

/// What clipping leaves of an edge along an axis.
proof fn lemma_edge(a: Spot, b: Spot, axis: int, bound: real, greater: bool)
    requires
        axis == 0 || axis == 1,
    ensures
        ({
            let e = edge_kept(a, b, axis, bound, greater);
            let p = crossing(a, b, axis, bound);
            match (keeps(a, axis, bound, greater), keeps(b, axis, bound, greater)) {
                (true, true) => e == seq![b],
                (true, false) => e == seq![p],
                (false, true) => e == seq![p, b],
                (false, false) => e == Seq::<Spot>::empty(),
            }
        }),
{
    let e = edge_kept(a, b, axis, bound, greater);
    let p = crossing(a, b, axis, bound);
    assert(keeps(a, axis, bound, greater) && keeps(b, axis, bound, greater) ==> e =~= seq![b]);
    assert(!keeps(a, axis, bound, greater) && keeps(b, axis, bound, greater) ==> e =~= seq![p, b]);
}

/// A box above a line.
proof fn lemma_box_above(x0: real, x1: real, y0: real, y1: real, c: real)
    requires
        y0 <= y1,
    ensures
        ({
            let out = clipped(box_ring(x0, x1, y0, y1), 1, c, true);
            if c <= y0 {
                out == box_ring(x0, x1, y0, y1)
            } else if c <= y1 {
                out == box_ring(x0, x1, c, y1)
            } else {
                out == Seq::<Spot>::empty()
            }
        }),
{
    let p = (x0, y0);
    let q = (x1, y0);
    let r = (x1, y1);
    let s = (x0, y1);
    lemma_clip_four(p, q, r, s, 1, c, true);
    lemma_edge(s, p, 1, c, true);
    lemma_edge(p, q, 1, c, true);
    lemma_edge(q, r, 1, c, true);
    lemma_edge(r, s, 1, c, true);
    lemma_straight(s, p, 1, c);
    lemma_straight(q, r, 1, c);
    let out = clipped(box_ring(x0, x1, y0, y1), 1, c, true);
    if c <= y0 {
        assert(out =~= box_ring(x0, x1, y0, y1));
    } else if c <= y1 {
        assert(out =~= box_ring(x0, x1, c, y1));
    } else {
        assert(out =~= Seq::<Spot>::empty());
    }
}

/// A box below a line.
proof fn lemma_box_below(x0: real, x1: real, y0: real, y1: real, c: real)
    requires
        y0 <= y1,
    ensures
        ({
            let out = clipped(box_ring(x0, x1, y0, y1), 1, c, false);
            if y1 <= c {
                out == box_ring(x0, x1, y0, y1)
            } else if y0 <= c {
                out == box_later(x0, x1, y0, c)
            } else {
                out == Seq::<Spot>::empty()
            }
        }),
{
    let p = (x0, y0);
    let q = (x1, y0);
    let r = (x1, y1);
    let s = (x0, y1);
    lemma_clip_four(p, q, r, s, 1, c, false);
    lemma_edge(s, p, 1, c, false);
    lemma_edge(p, q, 1, c, false);
    lemma_edge(q, r, 1, c, false);
    lemma_edge(r, s, 1, c, false);
    lemma_straight(s, p, 1, c);
    lemma_straight(q, r, 1, c);
    let out = clipped(box_ring(x0, x1, y0, y1), 1, c, false);
    if y1 <= c {
        assert(out =~= box_ring(x0, x1, y0, y1));
    } else if y0 <= c {
        assert(out =~= box_later(x0, x1, y0, c));
    } else {
        assert(out =~= Seq::<Spot>::empty());
    }
}

/// A box, from its least corner on or one corner later.
spec fn either_box(later: bool, x0: real, x1: real, y0: real, y1: real) -> Seq<Spot> {
    if later {
        box_later(x0, x1, y0, y1)
    } else {
        box_ring(x0, x1, y0, y1)
    }
}

/// A box right of a line.
proof fn lemma_box_right(later: bool, x0: real, x1: real, y0: real, y1: real, c: real)
    requires
        x0 <= x1,
    ensures
        ({
            let out = clipped(either_box(later, x0, x1, y0, y1), 0, c, true);
            if c <= x0 {
                out == either_box(later, x0, x1, y0, y1)
            } else if c <= x1 {
                out == either_box(later, c, x1, y0, y1)
            } else {
                out == Seq::<Spot>::empty()
            }
        }),
{
    let p = (x0, y0);
    let q = (x1, y0);
    let r = (x1, y1);
    let s = (x0, y1);
    lemma_edge(s, p, 0, c, true);
    lemma_edge(p, q, 0, c, true);
    lemma_edge(q, r, 0, c, true);
    lemma_edge(r, s, 0, c, true);
    lemma_straight(p, q, 0, c);
    lemma_straight(r, s, 0, c);
    let out = clipped(either_box(later, x0, x1, y0, y1), 0, c, true);
    if later {
        lemma_clip_four(s, p, q, r, 0, c, true);
    } else {
        lemma_clip_four(p, q, r, s, 0, c, true);
    }
    if c <= x0 {
        assert(out =~= either_box(later, x0, x1, y0, y1));
    } else if c <= x1 {
        assert(out =~= either_box(later, c, x1, y0, y1));
    } else {
        assert(out =~= Seq::<Spot>::empty());
    }
}

/// A box left of a line.
proof fn lemma_box_left(later: bool, x0: real, x1: real, y0: real, y1: real, c: real)
    requires
        x0 <= x1,
    ensures
        ({
            let out = clipped(either_box(later, x0, x1, y0, y1), 0, c, false);
            if x1 <= c {
                out == either_box(later, x0, x1, y0, y1)
            } else if x0 <= c {
                out == if later {
                    box_last(x0, c, y0, y1)
                } else {
                    box_ring(x0, c, y0, y1)
                }
            } else {
                out == Seq::<Spot>::empty()
            }
        }),
{
    let p = (x0, y0);
    let q = (x1, y0);
    let r = (x1, y1);
    let s = (x0, y1);
    lemma_edge(s, p, 0, c, false);
    lemma_edge(p, q, 0, c, false);
    lemma_edge(q, r, 0, c, false);
    lemma_edge(r, s, 0, c, false);
    lemma_straight(p, q, 0, c);
    lemma_straight(r, s, 0, c);
    let out = clipped(either_box(later, x0, x1, y0, y1), 0, c, false);
    if later {
        lemma_clip_four(s, p, q, r, 0, c, false);
    } else {
        lemma_clip_four(p, q, r, s, 0, c, false);
    }
    if x1 <= c {
        assert(out =~= either_box(later, x0, x1, y0, y1));
    } else if x0 <= c {
        if later {
            assert(out =~= box_last(x0, c, y0, y1));
        } else {
            assert(out =~= box_ring(x0, c, y0, y1));
        }
    } else {
        assert(out =~= Seq::<Spot>::empty());
    }
}

/// How much of the cell that begins at `k` lies from `lo` to `hi`, along one axis.
pub open spec fn overlap(lo: real, hi: real, k: int) -> real {
    let a = if lo > k as real {
        lo
    } else {
        k as real
    };
    let b = if hi < (k + 1) as real {
        hi
    } else {
        (k + 1) as real
    };
    if b > a {
        b - a
    } else {
        0real
    }
}

proof fn lemma_empty_clip(axis: int, bound: real, greater: bool)
    ensures
        clipped(Seq::<Spot>::empty(), axis, bound, greater) == Seq::<Spot>::empty(),
{
}

/// A box covers of a cell what it overlaps along both axes: the product of both overlaps.
pub proof fn a_box_covers_what_it_overlaps(
    x0: real,
    x1: real,
    y0: real,
    y1: real,
    row: int,
    col: int,
)
    requires
        x0 <= x1,
        y0 <= y1,
    ensures
        area_of(in_cell(box_ring(x0, x1, y0, y1), row, col)) == overlap(x0, x1, col) * overlap(
            y0,
            y1,
            row,
        ),
{
    let r0 = row as real;
    let r1 = (row + 1) as real;
    let c0 = col as real;
    let c1 = (col + 1) as real;
    let b = overlap(y0, y1, row);
    let a = overlap(x0, x1, col);
    lemma_nothing(a);
    lemma_nothing(b);
    lemma_turned(a, 0real);
    lemma_empty_clip(1, r1, false);
    lemma_empty_clip(0, c0, true);
    lemma_empty_clip(0, c1, false);
    lemma_box_above(x0, x1, y0, y1, r0);
    if r0 <= y1 {
        let lo = if r0 <= y0 {
            y0
        } else {
            r0
        };
        lemma_box_below(x0, x1, lo, y1, r1);
        if lo <= r1 {
            let later = y1 > r1;
            let hi = if later {
                r1
            } else {
                y1
            };
            lemma_box_right(later, x0, x1, lo, hi, c0);
            if c0 <= x1 {
                let left = if c0 <= x0 {
                    x0
                } else {
                    c0
                };
                lemma_box_left(later, left, x1, lo, hi, c1);
                if left <= c1 {
                    let right = if x1 <= c1 {
                        x1
                    } else {
                        c1
                    };
                    lemma_box_area(left, right, lo, hi);
                    assert(right - left == a);
                    assert(hi - lo == b);
                } else {
                    assert(a == 0real);
                }
            } else {
                assert(a == 0real);
            }
        } else {
            assert(b == 0real);
        }
    } else {
        assert(b == 0real);
    }
}

/// A ring adds its part of a cell to what is covered, and a hole takes its part off. The area of
/// the polygon is added up in the same way.
pub proof fn a_hole_takes_off_what_it_covers(
    axes: Axes,
    rings: Seq<Ring>,
    row: int,
    col: int,
    n: int,
)
    requires
        0 < n <= rings.len(),
    ensures
        ({
            let part = area_of(in_cell(laid(axes, rings[n - 1]), row, col));
            let whole = area_of(laid(axes, rings[n - 1]));
            let before = covered(axes, rings, row, col, n - 1);
            let after = covered(axes, rings, row, col, n);
            &&& rings[n - 1].hole ==> after + part == before && area_to(axes, rings, n) + whole
                == area_to(axes, rings, n - 1)
            &&& !rings[n - 1].hole ==> after == before + part && area_to(axes, rings, n) == area_to(
                axes,
                rings,
                n - 1,
            ) + whole
        }),
        covered(axes, rings, row, col, 0) == 0real,
        area_to(axes, rings, 0) == 0real,
{
}

/// An area is never negative.
pub proof fn an_area_is_not_negative(ring: Seq<Spot>)
    ensures
        area_of(ring) >= 0real,
{
}

/// A share is told of a cell only where the cell is covered and no more than whole: nothing where
/// it is not covered, else the double of what is covered, which is above zero.
pub proof fn a_share_is_what_is_covered(v: real)
    ensures
        share(v) == Ok::<Option<u64>, Error>(None) <==> v == 0real,
        share(v) matches Ok(Some(bits)) ==> 0real < v <= 1real && nearest(v) == Some(bits)
            && positive(bits),
        v < 0real || v > 1real ==> share(v) is Err,
{
}

/// Laying a corner on the grid is undone by the grid's origin and size.
pub proof fn laying_a_corner_is_undone(axes: Axes, corner: (u64, u64))
    requires
        axes.wf(),
    ensures
        value_of(axes.x_origin) + placed(axes, corner).0 * value_of(axes.x_size) == value_of(
            corner.0,
        ),
        value_of(axes.y_origin) + placed(axes, corner).1 * value_of(axes.y_size) == value_of(
            corner.1,
        ),
{
    lemma_quotient(value_of(corner.0) - value_of(axes.x_origin), value_of(axes.x_size));
    lemma_quotient(value_of(corner.1) - value_of(axes.y_origin), value_of(axes.y_size));
}

/// One cell stands before another in the order of rows, and in a row in that of columns.
pub open spec fn comes_before(a: Cell, b: Cell) -> bool {
    a.row < b.row || (a.row == b.row && a.col < b.col)
}

/// A list holds the cells of a window that are covered, each once, in order, with its share.
pub open spec fn lists_cells(
    axes: Axes,
    rings: Seq<Ring>,
    cells: Seq<Cell>,
    xmin: int,
    xmax: int,
    lo: int,
    hi: int,
) -> bool {
    &&& forall|i: int|
        0 <= i < cells.len() ==> {
            let c = #[trigger] cells[i];
            let v = covered(axes, rings, c.row as int, c.col as int, rings.len() as int);
            &&& lo <= c.row < hi
            &&& xmin <= c.col < xmax
            &&& 0real < v <= 1real
            &&& nearest(v) == Some(c.fraction)
        }
    &&& forall|i: int, j: int|
        0 <= i < j < cells.len() ==> comes_before(#[trigger] cells[i], #[trigger] cells[j])
    &&& forall|row: int, col: int|
        lo <= row < hi && xmin <= col < xmax && #[trigger] covered(
            axes,
            rings,
            row,
            col,
            rings.len() as int,
        ) != 0real ==> exists|i: int|
            0 <= i < cells.len() && (#[trigger] cells[i]).row == row && cells[i].col == col
}

proof fn lemma_row_lists(
    axes: Axes,
    rings: Seq<Ring>,
    row: int,
    xmin: int,
    col: int,
    cells: Seq<Cell>,
)
    requires
        0 <= row <= usize::MAX,
        0 <= xmin <= col <= usize::MAX,
        row_cells(axes, rings, row, xmin, col) == Ok::<Seq<Cell>, Error>(cells),
    ensures
        lists_cells(axes, rings, cells, xmin, col, row, row + 1),
    decreases col - xmin,
{
    let n = rings.len() as int;
    if xmin < col {
        let before = row_cells(axes, rings, row, xmin, col - 1)->Ok_0;
        lemma_row_lists(axes, rings, row, xmin, col - 1, before);
        let v = covered(axes, rings, row, col - 1, n);
        a_share_is_what_is_covered(v);
        assert forall|r: int, c: int|
            row <= r < row + 1 && xmin <= c < col && #[trigger] covered(axes, rings, r, c, n)
                != 0real implies exists|i: int|
            0 <= i < cells.len() && (#[trigger] cells[i]).row == r && cells[i].col == c by {
            if c < col - 1 {
                let i = choose|i: int|
                    0 <= i < before.len() && (#[trigger] before[i]).row == r && before[i].col == c;
                assert(cells[i] == before[i]);
            } else {
                assert(cells[cells.len() - 1].row == r);
            }
        }
        assert forall|i: int| 0 <= i < before.len() implies #[trigger] cells[i] == before[i] by {}
    }
}

/// The cells that coverage lists of a window are those that the polygon covers, each once, row by
/// row, with the double of its covered share.
pub proof fn a_window_lists_each_covered_cell_once(
    axes: Axes,
    rings: Seq<Ring>,
    xmin: int,
    xmax: int,
    lo: int,
    hi: int,
    cells: Seq<Cell>,
)
    requires
        0 <= xmin <= xmax <= usize::MAX,
        0 <= lo <= hi <= usize::MAX,
        cells_to(axes, rings, xmin, xmax, lo, hi) == Ok::<Seq<Cell>, Error>(cells),
    ensures
        lists_cells(axes, rings, cells, xmin, xmax, lo, hi),
    decreases hi - lo,
{
    let n = rings.len() as int;
    if lo < hi {
        let a = cells_to(axes, rings, xmin, xmax, lo, hi - 1)->Ok_0;
        let b = row_cells(axes, rings, hi - 1, xmin, xmax)->Ok_0;
        a_window_lists_each_covered_cell_once(axes, rings, xmin, xmax, lo, hi - 1, a);
        lemma_row_lists(axes, rings, hi - 1, xmin, xmax, b);
        assert(cells == a + b);
        assert forall|i: int| 0 <= i < cells.len() implies #[trigger] cells[i] == if i < a.len() {
            a[i]
        } else {
            b[i - a.len()]
        } by {}
        assert forall|r: int, c: int|
            lo <= r < hi && xmin <= c < xmax && #[trigger] covered(axes, rings, r, c, n)
                != 0real implies exists|i: int|
            0 <= i < cells.len() && (#[trigger] cells[i]).row == r && cells[i].col == c by {
            if r < hi - 1 {
                let i = choose|i: int|
                    0 <= i < a.len() && (#[trigger] a[i]).row == r && a[i].col == c;
                assert(cells[i] == a[i]);
            } else {
                let i = choose|i: int|
                    0 <= i < b.len() && (#[trigger] b[i]).row == r && b[i].col == c;
                assert(cells[a.len() + i] == b[i]);
            }
        }
        assert forall|i: int, j: int| 0 <= i < j < cells.len() implies comes_before(
            #[trigger] cells[i],
            #[trigger] cells[j],
        ) by {
            if i < a.len() && j >= a.len() {
                assert(a[i].row < hi - 1);
                assert(b[j - a.len()].row >= hi - 1);
            }
        }
    }
}

/// Coverage that succeeds lists each covered cell once, and gives the double of the area of the
/// polygon; its window has no more cells, and no more cells for each corner, than it may have.
pub proof fn coverage_lists_its_cells_and_its_area(
    axes: Axes,
    rings: Seq<Ring>,
    bounds: (int, int, int, int),
    vertices: int,
    max_bytes: int,
    cells: Seq<Cell>,
    area: u64,
)
    requires
        0 <= bounds.0 <= bounds.1 <= usize::MAX,
        0 <= bounds.2 <= bounds.3 <= usize::MAX,
        0 <= vertices,
        coverage_of(axes, rings, bounds, vertices, max_bytes) == Ok::<(Seq<Cell>, u64), Error>(
            (cells, area),
        ),
    ensures
        lists_cells(axes, rings, cells, bounds.0, bounds.1, bounds.2, bounds.3),
        nearest(area_to(axes, rings, rings.len() as int)) == Some(area),
{
    a_window_lists_each_covered_cell_once(
        axes,
        rings,
        bounds.0,
        bounds.1,
        bounds.2,
        bounds.3,
        cells,
    );
}

/// A window is refused just where it has too many cells, too many for its corners, or takes more
/// memory than it may.
pub proof fn a_window_is_refused_only_for_its_size(cells: int, vertices: int, max_bytes: int)
    requires
        max_bytes < usize::MAX,
    ensures
        budget_refusal(cells, vertices, max_bytes) is None <==> cells <= 100000 && cells * vertices
            <= 1000000 && vertices * 4096 + cells * 48 <= max_bytes,
{
    assert(usize::MAX >= 100000);
}

} // verus!
