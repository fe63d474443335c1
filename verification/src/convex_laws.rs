//! Convex rings: clipping leaves them convex, so that the covered shares of the cells of a window
//! add up to the area of a polygon of such rings.
use vstd::prelude::*;

use crate::algebra::{
    lemma_assoc, lemma_differences, lemma_minus, lemma_nothing, lemma_opposed, lemma_part_of,
    lemma_scaled, lemma_spread, lemma_turned,
};
use crate::precise::{
    area_of, area_to, clipped, clipped_to, clipping_keeps_to_the_half_plane, coord, covered,
    crossing, in_cell, keeps, laid, previous, signed, strip, turned, Axes, Ring,
};
use crate::precise_laws::{
    a_bound_divides_a_ring, cells_area, doubled_area, lemma_clip_end, lemma_clip_step, lemma_way, on_the_way, row_area,
    slice, the_cells_of_a_window_hold_a_ring, within, Spot,
};

verus! {

/// Twice the signed area of a triangle: above zero where `w` lies left of the way from `u` to `v`.
pub open spec fn cross(u: Spot, v: Spot, w: Spot) -> real {
    (v.0 - u.0) * (w.1 - u.1) - (w.0 - u.0) * (v.1 - u.1)
}

/// How far `w` lies on the inner side of the way from `u` to `v`.
pub open spec fn side(left: bool, u: Spot, v: Spot, w: Spot) -> real {
    if left {
        cross(u, v, w)
    } else {
        0real - cross(u, v, w)
    }
}

/// A place on the inner side of every edge.
pub open spec fn inside(ring: Seq<Spot>, left: bool, w: Spot) -> bool {
    forall|i: int| 0 <= i < ring.len() ==> side(left, previous(ring, i), #[trigger] ring[i], w)
        >= 0real
}

/// A convex ring, walked around with its inner side to the left, or to the right.
pub open spec fn convex(ring: Seq<Spot>, left: bool) -> bool {
    forall|k: int| 0 <= k < ring.len() ==> inside(ring, left, #[trigger] ring[k])
}

proof fn lemma_cyclic(u: Spot, v: Spot, w: Spot)
    ensures
        cross(u, v, w) == cross(v, w, u),
        cross(u, v, w) == cross(w, u, v),
{
    lemma_cyclic_once(u, v, w);
    lemma_cyclic_once(w, u, v);
}

proof fn lemma_cyclic_once(u: Spot, v: Spot, w: Spot)
    ensures
        cross(u, v, w) == cross(v, w, u),
{
    lemma_differences(v.0, u.0, w.1, u.1);
    lemma_differences(w.0, u.0, v.1, u.1);
    lemma_differences(w.0, v.0, u.1, v.1);
    lemma_differences(u.0, v.0, w.1, v.1);
}

proof fn lemma_flat(u: Spot, v: Spot)
    ensures
        cross(u, v, u) == 0real,
        cross(u, v, v) == 0real,
        cross(u, u, v) == 0real,
{
    lemma_nothing(v.1 - u.1);
    lemma_nothing(v.0 - u.0);
    lemma_turned(v.0 - u.0, 0real);
}

/// The side of a place on the way from `a` to `b`.
proof fn lemma_affine(u: Spot, v: Spot, a: Spot, b: Spot, t: real, p: Spot)
    requires
        on_the_way(a, b, t, p),
    ensures
        cross(u, v, p) == cross(u, v, a) + t * (cross(u, v, b) - cross(u, v, a)),
{
    let x = v.0 - u.0;
    let y = v.1 - u.1;
    let ex = b.0 - a.0;
    let ey = b.1 - a.1;
    // x * (p.1 - u.1) == x * (a.1 - u.1) + t * (x * ey).
    lemma_scaled(x, p.1 - u.1, (a.1 - u.1) + t * ey);
    lemma_spread(x, a.1 - u.1, t * ey);
    lemma_assoc(t, ey, x);
    lemma_turned(ey, x);
    lemma_turned(x, t * ey);
    assert(x * (p.1 - u.1) == x * (a.1 - u.1) + t * (x * ey));
    // The same along the other axis.
    lemma_scaled(y, p.0 - u.0, (a.0 - u.0) + t * ex);
    lemma_spread(y, a.0 - u.0, t * ex);
    lemma_assoc(t, ex, y);
    lemma_turned(ex, y);
    lemma_turned(y, t * ex);
    lemma_turned(y, p.0 - u.0);
    lemma_turned(y, a.0 - u.0);
    assert((p.0 - u.0) * y == (a.0 - u.0) * y + t * (ex * y));
    // The difference of both ends.
    lemma_minus(x, b.1 - u.1, a.1 - u.1);
    lemma_scaled(x, (b.1 - u.1) - (a.1 - u.1), ey);
    lemma_minus(y, b.0 - u.0, a.0 - u.0);
    lemma_scaled(y, (b.0 - u.0) - (a.0 - u.0), ex);
    lemma_turned(y, (b.0 - u.0) - (a.0 - u.0));
    assert(cross(u, v, b) - cross(u, v, a) == x * ey - ex * y);
    lemma_scaled(t, cross(u, v, b) - cross(u, v, a), x * ey - ex * y);
    lemma_minus(t, x * ey, ex * y);
}

/// A place on the way between two places of one side lies on that side.
proof fn lemma_stays_inside(left: bool, u: Spot, v: Spot, a: Spot, b: Spot, t: real, p: Spot)
    requires
        on_the_way(a, b, t, p),
        side(left, u, v, a) >= 0real,
        side(left, u, v, b) >= 0real,
    ensures
        side(left, u, v, p) >= 0real,
{
    lemma_affine(u, v, a, b, t, p);
    lemma_part_of(t, cross(u, v, b) - cross(u, v, a));
}

/// What lies inside of an edge lies inside of its parts.
proof fn lemma_parts(left: bool, a: Spot, b: Spot, t: real, p: Spot, w: Spot)
    requires
        on_the_way(a, b, t, p),
        side(left, a, b, w) >= 0real,
    ensures
        side(left, a, p, w) >= 0real,
        side(left, p, b, w) >= 0real,
        cross(a, b, p) == 0real,
{
    let c = cross(a, b, w);
    // cross(w, a, p) == t * c.
    lemma_cyclic(a, p, w);
    lemma_cyclic(a, b, w);
    lemma_affine(w, a, a, b, t, p);
    lemma_flat(w, a);
    assert(cross(a, p, w) == t * (c - 0real));
    // cross(b, w, p) == c + t * (0 - c).
    lemma_cyclic(p, b, w);
    lemma_affine(b, w, a, b, t, p);
    lemma_flat(b, w);
    assert(cross(p, b, w) == c + t * (0real - c));
    lemma_part_of(t, c);
    lemma_part_of(t, 0real - c);
    lemma_affine(a, b, a, b, t, p);
    lemma_flat(a, b);
    lemma_nothing(t);
    lemma_turned(t, 0real);
}

/// From where a ring leaves a half plane, every place inside on the bound lies so that what the half
/// plane keeps is on the inner side of the way there.
proof fn lemma_opens(
    left: bool,
    a: Spot,
    b: Spot,
    axis: int,
    bound: real,
    greater: bool,
    q: Spot,
    w: Spot,
)
    requires
        axis == 0 || axis == 1,
        keeps(a, axis, bound, greater),
        !keeps(b, axis, bound, greater),
        coord(q, axis) == bound,
        side(left, a, b, q) >= 0real,
        keeps(w, axis, bound, greater),
    ensures
        side(left, crossing(a, b, axis, bound), q, w) >= 0real,
{
    let p = crossing(a, b, axis, bound);
    let t = lemma_way(a, b, axis, bound, greater);
    lemma_affine(a, b, a, b, t, p);
    lemma_flat(a, b);
    lemma_nothing(t);
    lemma_turned(t, 0real);
    assert(cross(a, b, p) == 0real);
    let x = b.0 - a.0;
    let y = b.1 - a.1;
    // cross(a, b, q) - cross(a, b, p).
    lemma_minus(x, q.1 - a.1, p.1 - a.1);
    lemma_scaled(x, (q.1 - a.1) - (p.1 - a.1), q.1 - p.1);
    lemma_minus(y, q.0 - a.0, p.0 - a.0);
    lemma_scaled(y, (q.0 - a.0) - (p.0 - a.0), q.0 - p.0);
    lemma_turned(y, (q.0 - a.0) - (p.0 - a.0));
    lemma_turned(y, q.0 - p.0);
    assert(cross(a, b, q) == x * (q.1 - p.1) - (q.0 - p.0) * y);
    if axis == 0 {
        let h = q.1 - p.1;
        let s = if left {
            h
        } else {
            0real - h
        };
        let v = w.0 - p.0;
        lemma_nothing(y);
        lemma_nothing(w.1 - p.1);
        lemma_minus(x, 0real, h);
        lemma_nothing(x);
        lemma_turned(x, 0real);
        assert(x * s >= 0real);
        lemma_opposed(x, s, v);
        lemma_minus(v, 0real, h);
        lemma_nothing(v);
        lemma_turned(v, 0real);
        lemma_turned(v, h);
        lemma_turned(v, s);
    } else {
        let h = q.0 - p.0;
        let s = if left {
            0real - h
        } else {
            h
        };
        let v = w.1 - p.1;
        lemma_nothing(x);
        lemma_turned(x, 0real);
        lemma_nothing(w.0 - p.0);
        lemma_turned(w.0 - p.0, 0real);
        lemma_minus(y, 0real, h);
        lemma_nothing(y);
        lemma_turned(y, 0real);
        lemma_turned(y, h);
        lemma_turned(y, s);
        assert(y * s >= 0real);
        lemma_opposed(y, s, v);
        lemma_minus(v, 0real, h);
        lemma_nothing(v);
        lemma_turned(v, 0real);
        lemma_turned(v, h);
        lemma_turned(v, s);
    }
}

/// All that lies inside of a ring and is kept lies on the inner side of an edge.
spec fn good(
    ring: Seq<Spot>,
    left: bool,
    axis: int,
    bound: real,
    greater: bool,
    u: Spot,
    v: Spot,
) -> bool {
    forall|w: Spot|
        #![trigger inside(ring, left, w)]
        inside(ring, left, w) && keeps(w, axis, bound, greater) ==> side(left, u, v, w) >= 0real
}

/// An edge from `u` to any place inside on the bound is good.
spec fn opens(
    ring: Seq<Spot>,
    left: bool,
    axis: int,
    bound: real,
    greater: bool,
    u: Spot,
) -> bool {
    forall|q: Spot|
        #![trigger inside(ring, left, q)]
        inside(ring, left, q) && coord(q, axis) == bound ==> good(
            ring,
            left,
            axis,
            bound,
            greater,
            u,
            q,
        )
}

/// What clipping an edge of a convex ring adds lies inside, and its edges are good.
proof fn lemma_convex_edge(
    ring: Seq<Spot>,
    left: bool,
    axis: int,
    bound: real,
    greater: bool,
    n: int,
)
    requires
        axis == 0 || axis == 1,
        convex(ring, left),
        0 <= n < ring.len(),
    ensures
        ({
            let a = previous(ring, n);
            let b = ring[n];
            let p = crossing(a, b, axis, bound);
            let ka = keeps(a, axis, bound, greater);
            let kb = keeps(b, axis, bound, greater);
            &&& inside(ring, left, b)
            &&& good(ring, left, axis, bound, greater, a, b)
            &&& ka != kb ==> {
                &&& inside(ring, left, p)
                &&& coord(p, axis) == bound
                &&& good(ring, left, axis, bound, greater, a, p)
                &&& good(ring, left, axis, bound, greater, p, b)
            }
            &&& ka && !kb ==> opens(ring, left, axis, bound, greater, p)
        }),
{
    let a = previous(ring, n);
    let b = ring[n];
    let p = crossing(a, b, axis, bound);
    let ka = keeps(a, axis, bound, greater);
    let kb = keeps(b, axis, bound, greater);
    assert(inside(ring, left, b));
    assert(inside(ring, left, a)) by {
        if n > 0 {
            assert(inside(ring, left, ring[n - 1]));
        } else {
            assert(inside(ring, left, ring[ring.len() - 1]));
        }
    }
    assert forall|w: Spot|
        #![trigger inside(ring, left, w)]
        inside(ring, left, w) implies side(left, a, b, w) >= 0real by {
        assert(side(left, previous(ring, n), ring[n], w) >= 0real);
    }
    if ka != kb {
        let t = lemma_way(a, b, axis, bound, greater);
        assert forall|i: int| 0 <= i < ring.len() implies side(
            left,
            previous(ring, i),
            #[trigger] ring[i],
            p,
        ) >= 0real by {
            lemma_stays_inside(left, previous(ring, i), ring[i], a, b, t, p);
        }
        assert forall|w: Spot|
            #![trigger inside(ring, left, w)]
            inside(ring, left, w) implies side(left, a, p, w) >= 0real && side(left, p, b, w)
            >= 0real by {
            lemma_parts(left, a, b, t, p, w);
        }
    }
    if ka && !kb {
        assert forall|q: Spot|
            #![trigger inside(ring, left, q)]
            inside(ring, left, q) && coord(q, axis) == bound implies good(
            ring,
            left,
            axis,
            bound,
            greater,
            p,
            q,
        ) by {
            assert forall|w: Spot|
                #![trigger inside(ring, left, w)]
                inside(ring, left, w) && keeps(w, axis, bound, greater) implies side(left, p, q, w)
                >= 0real by {
                lemma_opens(left, a, b, axis, bound, greater, q, w);
            }
        }
    }
}

/// What was kept of a convex ring ends where an edge along the bound may begin.
proof fn lemma_convex_end(
    ring: Seq<Spot>,
    left: bool,
    axis: int,
    bound: real,
    greater: bool,
    n: int,
)
    requires
        axis == 0 || axis == 1,
        convex(ring, left),
        1 <= n <= ring.len(),
    ensures
        ({
            let out = clipped_to(ring, axis, bound, greater, n);
            !keeps(ring[n - 1], axis, bound, greater) && out.len() > 0 ==> opens(
                ring,
                left,
                axis,
                bound,
                greater,
                out.last(),
            )
        }),
    decreases n,
{
    lemma_clip_step(ring, axis, bound, greater, n - 1);
    lemma_convex_edge(ring, left, axis, bound, greater, n - 1);
    if n > 1 {
        lemma_convex_end(ring, left, axis, bound, greater, n - 1);
    }
}

/// The place before place `i` of what was kept, coming from where all of it ends.
spec fn came_from(s: Seq<Spot>, from: Spot, i: int) -> Spot {
    if i <= 0 {
        from
    } else {
        s[i - 1]
    }
}

/// What is kept of the first `n` edges of a convex ring lies inside, and all its edges are good.
proof fn lemma_convex_path(
    ring: Seq<Spot>,
    left: bool,
    axis: int,
    bound: real,
    greater: bool,
    n: int,
)
    requires
        axis == 0 || axis == 1,
        convex(ring, left),
        0 <= n <= ring.len(),
        clipped(ring, axis, bound, greater).len() > 0,
    ensures
        ({
            let from = clipped(ring, axis, bound, greater).last();
            let out = clipped_to(ring, axis, bound, greater, n);
            forall|i: int|
                0 <= i < out.len() ==> inside(ring, left, #[trigger] out[i]) && good(
                    ring,
                    left,
                    axis,
                    bound,
                    greater,
                    came_from(out, from, i),
                    out[i],
                )
        }),
    decreases n,
{
    if n > 0 {
        lemma_convex_path(ring, left, axis, bound, greater, n - 1);
        lemma_clip_step(ring, axis, bound, greater, n - 1);
        lemma_convex_edge(ring, left, axis, bound, greater, n - 1);
        let total = ring.len() as int;
        lemma_clip_end(ring, axis, bound, greater, total);
        lemma_convex_end(ring, left, axis, bound, greater, total);
        if n > 1 {
            lemma_clip_end(ring, axis, bound, greater, n - 1);
            lemma_convex_end(ring, left, axis, bound, greater, n - 1);
        }
        let from = clipped(ring, axis, bound, greater).last();
        let out = clipped_to(ring, axis, bound, greater, n - 1);
        let next = clipped_to(ring, axis, bound, greater, n);
        let a = previous(ring, n - 1);
        let b = ring[n - 1];
        let p = crossing(a, b, axis, bound);
        let at = came_from(out, from, out.len() as int);
        let ka = keeps(a, axis, bound, greater);
        let kb = keeps(b, axis, bound, greater);
        assert(ka ==> at == a);
        assert(!ka ==> opens(ring, left, axis, bound, greater, at));
        if !ka && kb {
            assert(inside(ring, left, p));
            assert(good(ring, left, axis, bound, greater, at, p));
        }
        assert forall|i: int| 0 <= i < next.len() implies inside(ring, left, #[trigger] next[i])
            && good(
            ring,
            left,
            axis,
            bound,
            greater,
            came_from(next, from, i),
            next[i],
        ) by {
            if i < out.len() {
                assert(next[i] == out[i]);
                assert(came_from(next, from, i) == came_from(out, from, i));
            } else if i == out.len() {
                assert(came_from(next, from, i) == at);
            }
        }
    }
}

/// Clipping leaves a convex ring convex, with its inner side where it was.
pub proof fn clipping_keeps_a_ring_convex(
    ring: Seq<Spot>,
    left: bool,
    axis: int,
    bound: real,
    greater: bool,
)
    requires
        axis == 0 || axis == 1,
        convex(ring, left),
    ensures
        convex(clipped(ring, axis, bound, greater), left),
{
    let out = clipped(ring, axis, bound, greater);
    if out.len() > 0 {
        lemma_convex_path(ring, left, axis, bound, greater, ring.len() as int);
        assert forall|k: int| 0 <= k < out.len() implies inside(out, left, #[trigger] out[k]) by {
            clipping_keeps_to_the_half_plane(ring, axis, bound, greater, ring.len() as int, k);
            assert(inside(ring, left, out[k]));
            assert forall|i: int| 0 <= i < out.len() implies side(
                left,
                previous(out, i),
                #[trigger] out[i],
                out[k],
            ) >= 0real by {
                assert(previous(out, i) == came_from(out, out.last(), i));
                assert(good(
                    ring,
                    left,
                    axis,
                    bound,
                    greater,
                    came_from(out, out.last(), i),
                    out[i],
                ));
            }
        }
    }
}

proof fn lemma_convex_turn(ring: Seq<Spot>, left: bool, n: int)
    requires
        convex(ring, left),
        0 <= n <= ring.len(),
    ensures
        left ==> turned(ring, n) >= 0real,
        !left ==> turned(ring, n) <= 0real,
    decreases n,
{
    if n > 0 {
        lemma_convex_turn(ring, left, n - 1);
        let o = ring[0];
        let a = previous(ring, n - 1);
        let b = ring[n - 1];
        assert(inside(ring, left, ring[0]));
        assert(side(left, previous(ring, n - 1), ring[n - 1], o) >= 0real);
        lemma_cyclic(o, a, b);
        assert(cross(o, a, b) == (a.0 - o.0) * (b.1 - o.1) - (b.0 - o.0) * (a.1 - o.1));
    }
}

proof fn lemma_small_ring(ring: Seq<Spot>)
    requires
        ring.len() < 3,
    ensures
        doubled_area(ring) == 0real,
{
    if ring.len() > 0 {
        let o = ring[0];
        lemma_nothing(0real);
        if ring.len() == 1 {
            reveal_with_fuel(turned, 2);
        } else {
            reveal_with_fuel(turned, 3);
            let b = ring[1];
            lemma_nothing(b.1 - o.1);
            lemma_nothing(b.0 - o.0);
            lemma_turned(b.0 - o.0, 0real);
        }
    }
}

/// The area of a convex ring is half of what it turns about, to its inner side.
proof fn lemma_convex_area(ring: Seq<Spot>, left: bool)
    requires
        convex(ring, left),
    ensures
        area_of(ring) == (if left {
            doubled_area(ring)
        } else {
            0real - doubled_area(ring)
        }) / 2real,
{
    lemma_convex_turn(ring, left, ring.len() as int);
    if ring.len() < 3 {
        lemma_small_ring(ring);
    }
}

/// A bound divides the area of a convex ring: what its two sides keep adds up to the ring.
pub proof fn a_bound_divides_the_area(ring: Seq<Spot>, left: bool, axis: int, bound: real)
    requires
        axis == 0 || axis == 1,
        convex(ring, left),
    ensures
        area_of(clipped(ring, axis, bound, true)) + area_of(clipped(ring, axis, bound, false))
            == area_of(ring),
{
    a_bound_divides_a_ring(ring, axis, bound);
    clipping_keeps_a_ring_convex(ring, left, axis, bound, true);
    clipping_keeps_a_ring_convex(ring, left, axis, bound, false);
    lemma_convex_area(ring, left);
    lemma_convex_area(clipped(ring, axis, bound, true), left);
    lemma_convex_area(clipped(ring, axis, bound, false), left);
}

proof fn lemma_slice_convex(ring: Seq<Spot>, left: bool, axis: int, at: int)
    requires
        axis == 0 || axis == 1,
        convex(ring, left),
    ensures
        convex(slice(ring, axis, at), left),
{
    clipping_keeps_a_ring_convex(ring, left, axis, at as real, true);
    clipping_keeps_a_ring_convex(
        clipped(ring, axis, at as real, true),
        left,
        axis,
        (at + 1) as real,
        false,
    );
}

proof fn lemma_cell_convex(ring: Seq<Spot>, left: bool, row: int, col: int)
    requires
        convex(ring, left),
    ensures
        convex(in_cell(ring, row, col), left),
{
    lemma_slice_convex(ring, left, 1, row);
    assert(strip(ring, row) == slice(ring, 1, row));
    lemma_slice_convex(strip(ring, row), left, 0, col);
    assert(in_cell(ring, row, col) == slice(strip(ring, row), 0, col));
}

/// A share of each cell.
pub type Share = spec_fn(int, int) -> real;

/// The shares of the cells of a row, added up.
pub open spec fn row_total(share: Share, row: int, xmin: int, xmax: int) -> real
    decreases xmax - xmin,
{
    if xmax <= xmin {
        0real
    } else {
        row_total(share, row, xmin, xmax - 1) + share(row, xmax - 1)
    }
}

/// The shares of the cells of a window, added up.
pub open spec fn window_total(share: Share, xmin: int, xmax: int, lo: int, hi: int) -> real
    decreases hi - lo,
{
    if hi <= lo {
        0real
    } else {
        window_total(share, xmin, xmax, lo, hi - 1) + row_total(share, hi - 1, xmin, xmax)
    }
}

spec fn ring_share(ring: Seq<Spot>) -> Share {
    |row: int, col: int| area_of(in_cell(ring, row, col))
}

proof fn lemma_row_share(ring: Seq<Spot>, left: bool, row: int, xmin: int, xmax: int)
    requires
        convex(ring, left),
    ensures
        row_total(ring_share(ring), row, xmin, xmax) == (if left {
            row_area(ring, row, xmin, xmax)
        } else {
            0real - row_area(ring, row, xmin, xmax)
        }) / 2real,
    decreases xmax - xmin,
{
    if xmin < xmax {
        lemma_row_share(ring, left, row, xmin, xmax - 1);
        lemma_cell_convex(ring, left, row, xmax - 1);
        lemma_convex_area(in_cell(ring, row, xmax - 1), left);
    }
}

proof fn lemma_window_share(ring: Seq<Spot>, left: bool, xmin: int, xmax: int, lo: int, hi: int)
    requires
        convex(ring, left),
    ensures
        window_total(ring_share(ring), xmin, xmax, lo, hi) == (if left {
            cells_area(ring, xmin, xmax, lo, hi)
        } else {
            0real - cells_area(ring, xmin, xmax, lo, hi)
        }) / 2real,
    decreases hi - lo,
{
    if lo < hi {
        lemma_window_share(ring, left, xmin, xmax, lo, hi - 1);
        lemma_row_share(ring, left, hi - 1, xmin, xmax);
    }
}

/// The areas of the parts of a convex ring in the cells of a window that holds it add up to the area
/// of the ring.
pub proof fn the_parts_of_a_convex_ring_add_up(
    ring: Seq<Spot>,
    left: bool,
    xmin: int,
    xmax: int,
    lo: int,
    hi: int,
)
    requires
        convex(ring, left),
        xmin <= xmax,
        lo <= hi,
        within(ring, 0, xmin, xmax),
        within(ring, 1, lo, hi),
    ensures
        window_total(
            |row: int, col: int| area_of(in_cell(ring, row, col)),
            xmin,
            xmax,
            lo,
            hi,
        ) == area_of(ring),
{
    lemma_window_share(ring, left, xmin, xmax, lo, hi);
    the_cells_of_a_window_hold_a_ring(ring, xmin, xmax, lo, hi);
    lemma_convex_area(ring, left);
    lemma_same_total(
        ring_share(ring),
        |row: int, col: int| area_of(in_cell(ring, row, col)),
        xmin,
        xmax,
        lo,
        hi,
    );
}

proof fn lemma_same_row(a: Share, b: Share, row: int, xmin: int, xmax: int)
    requires
        forall|r: int, c: int| #[trigger] a(r, c) == b(r, c),
    ensures
        row_total(a, row, xmin, xmax) == row_total(b, row, xmin, xmax),
    decreases xmax - xmin,
{
    if xmin < xmax {
        lemma_same_row(a, b, row, xmin, xmax - 1);
        assert(a(row, xmax - 1) == b(row, xmax - 1));
    }
}

proof fn lemma_same_total(a: Share, b: Share, xmin: int, xmax: int, lo: int, hi: int)
    requires
        forall|r: int, c: int| #[trigger] a(r, c) == b(r, c),
    ensures
        window_total(a, xmin, xmax, lo, hi) == window_total(b, xmin, xmax, lo, hi),
    decreases hi - lo,
{
    if lo < hi {
        lemma_same_total(a, b, xmin, xmax, lo, hi - 1);
        lemma_same_row(a, b, hi - 1, xmin, xmax);
    }
}

/// Shares that are sums of two shares, the second taken off where it is that of a hole.
proof fn lemma_joined_row(a: Share, b: Share, c: Share, hole: bool, row: int, xmin: int, xmax: int)
    requires
        forall|r: int, k: int| #[trigger] c(r, k) == a(r, k) + signed(b(r, k), hole),
    ensures
        row_total(c, row, xmin, xmax) == row_total(a, row, xmin, xmax) + signed(
            row_total(b, row, xmin, xmax),
            hole,
        ),
    decreases xmax - xmin,
{
    if xmin < xmax {
        lemma_joined_row(a, b, c, hole, row, xmin, xmax - 1);
        assert(c(row, xmax - 1) == a(row, xmax - 1) + signed(b(row, xmax - 1), hole));
    }
}

proof fn lemma_joined_total(
    a: Share,
    b: Share,
    c: Share,
    hole: bool,
    xmin: int,
    xmax: int,
    lo: int,
    hi: int,
)
    requires
        forall|r: int, k: int| #[trigger] c(r, k) == a(r, k) + signed(b(r, k), hole),
    ensures
        window_total(c, xmin, xmax, lo, hi) == window_total(a, xmin, xmax, lo, hi) + signed(
            window_total(b, xmin, xmax, lo, hi),
            hole,
        ),
    decreases hi - lo,
{
    if lo < hi {
        lemma_joined_total(a, b, c, hole, xmin, xmax, lo, hi - 1);
        lemma_joined_row(a, b, c, hole, hi - 1, xmin, xmax);
    }
}

spec fn covered_share(axes: Axes, rings: Seq<Ring>, n: int) -> Share {
    |row: int, col: int| covered(axes, rings, row, col, n)
}

proof fn lemma_no_share(a: Share, xmin: int, xmax: int, lo: int, hi: int)
    requires
        forall|r: int, k: int| #[trigger] a(r, k) == 0real,
    ensures
        window_total(a, xmin, xmax, lo, hi) == 0real,
    decreases hi - lo,
{
    if lo < hi {
        lemma_no_share(a, xmin, xmax, lo, hi - 1);
        lemma_no_row(a, hi - 1, xmin, xmax);
    }
}

proof fn lemma_no_row(a: Share, row: int, xmin: int, xmax: int)
    requires
        forall|r: int, k: int| #[trigger] a(r, k) == 0real,
    ensures
        row_total(a, row, xmin, xmax) == 0real,
    decreases xmax - xmin,
{
    if xmin < xmax {
        lemma_no_row(a, row, xmin, xmax - 1);
        assert(a(row, xmax - 1) == 0real);
    }
}

/// A ring that is convex, walked around either way, and lies in a window.
pub open spec fn plain_ring(ring: Seq<Spot>, xmin: int, xmax: int, lo: int, hi: int) -> bool {
    &&& convex(ring, true) || convex(ring, false)
    &&& within(ring, 0, xmin, xmax)
    &&& within(ring, 1, lo, hi)
}

/// The covered shares of the cells of a window that holds a polygon of convex rings add up to the
/// area of the polygon, its holes taken off.
pub proof fn the_covered_shares_add_up_to_the_area(
    axes: Axes,
    rings: Seq<Ring>,
    xmin: int,
    xmax: int,
    lo: int,
    hi: int,
    n: int,
)
    requires
        xmin <= xmax,
        lo <= hi,
        0 <= n <= rings.len(),
        forall|i: int|
            0 <= i < n ==> plain_ring(laid(axes, #[trigger] rings[i]), xmin, xmax, lo, hi),
    ensures
        window_total(
            |row: int, col: int| covered(axes, rings, row, col, n),
            xmin,
            xmax,
            lo,
            hi,
        ) == area_to(axes, rings, n),
    decreases n,
{
    let a = covered_share(axes, rings, n - 1);
    let c = covered_share(axes, rings, n);
    if n > 0 {
        the_covered_shares_add_up_to_the_area(axes, rings, xmin, xmax, lo, hi, n - 1);
        let ring = laid(axes, rings[n - 1]);
        assert(plain_ring(ring, xmin, xmax, lo, hi));
        let left = convex(ring, true);
        the_parts_of_a_convex_ring_add_up(ring, left, xmin, xmax, lo, hi);
        let b = |row: int, col: int| area_of(in_cell(ring, row, col));
        lemma_joined_total(a, b, c, rings[n - 1].hole, xmin, xmax, lo, hi);
        lemma_same_total(
            a,
            |row: int, col: int| covered(axes, rings, row, col, n - 1),
            xmin,
            xmax,
            lo,
            hi,
        );
    } else {
        lemma_no_share(c, xmin, xmax, lo, hi);
    }
    lemma_same_total(
        c,
        |row: int, col: int| covered(axes, rings, row, col, n),
        xmin,
        xmax,
        lo,
        hi,
    );
}

} // verus!
