//! What clipping and areas say of a polygon: a bound divides a ring without loss, and the parts of
//! a polygon in the cells of a window add up to the polygon.
use vstd::prelude::*;

use crate::algebra::{
    lemma_assoc, lemma_cancelled, lemma_differences, lemma_minus, lemma_nothing, lemma_one,
    lemma_part_of, lemma_quotient, lemma_scaled, lemma_spread, lemma_turned, lemma_unit,
};
use crate::precise::{
    a_kept_ring_is_left_as_it_is, clipped, clipped_to, coord, crossing, edge_kept, in_cell, keeps,
    previous, strip, turned,
};

verus! {

/// A place of the plane.
pub type Spot = (real, real);

pub open spec fn between(a: real, p: real, b: real) -> bool {
    a <= p <= b || b <= p <= a
}

/// A place on the way from `a` to `b`.
pub open spec fn on_the_way(a: Spot, b: Spot, t: real, p: Spot) -> bool {
    &&& 0real <= t <= 1real
    &&& p.0 == a.0 + t * (b.0 - a.0)
    &&& p.1 == a.1 + t * (b.1 - a.1)
}

pub(crate) proof fn lemma_way(a: Spot, b: Spot, axis: int, bound: real, greater: bool) -> (t: real)
    requires
        axis == 0 || axis == 1,
        keeps(a, axis, bound, greater) != keeps(b, axis, bound, greater),
    ensures
        on_the_way(a, b, t, crossing(a, b, axis, bound)),
        coord(crossing(a, b, axis, bound), axis) == bound,
{
    let n = bound - coord(a, axis);
    let d = coord(b, axis) - coord(a, axis);
    let t = n / d;
    lemma_quotient(n, d);
    lemma_unit(n, d);
    t
}

/// Clipping an edge that crosses the bound adds the place of that edge on the bound: on the line
/// through its ends, between them, and with the bound as its coordinate.
pub proof fn a_crossing_lies_on_its_edge(
    a: Spot,
    b: Spot,
    axis: int,
    bound: real,
    greater: bool,
)
    requires
        axis == 0 || axis == 1,
        keeps(a, axis, bound, greater) != keeps(b, axis, bound, greater),
    ensures
        ({
            let p = crossing(a, b, axis, bound);
            &&& coord(p, axis) == bound
            &&& (p.0 - a.0) * (b.1 - a.1) == (p.1 - a.1) * (b.0 - a.0)
            &&& between(a.0, p.0, b.0)
            &&& between(a.1, p.1, b.1)
        }),
{
    let p = crossing(a, b, axis, bound);
    let t = lemma_way(a, b, axis, bound, greater);
    let x = b.0 - a.0;
    let y = b.1 - a.1;
    lemma_assoc(t, x, y);
    lemma_between(a.0, b.0, t);
    lemma_between(a.1, b.1, t);
}

proof fn lemma_between(a: real, b: real, t: real)
    requires
        0real <= t <= 1real,
    ensures
        between(a, a + t * (b - a), b),
{
    lemma_part_of(t, b - a);
}

/// A measure of an edge.
pub type Measure = spec_fn(Spot, Spot) -> real;

/// The place before place `i` of a path that comes from `from`.
spec fn before(s: Seq<Spot>, from: Spot, i: int) -> Spot {
    if i <= 0 {
        from
    } else {
        s[i - 1]
    }
}

/// A measure of the first `n` edges of a path that comes from `from`.
spec fn path_sum(k: Measure, s: Seq<Spot>, from: Spot, n: int) -> real
    decreases n,
{
    if n <= 0 {
        0real
    } else {
        path_sum(k, s, from, n - 1) + k(before(s, from, n - 1), s[n - 1])
    }
}

/// A measure of all edges of a ring.
spec fn ring_sum(k: Measure, ring: Seq<Spot>) -> real {
    if ring.len() == 0 {
        0real
    } else {
        path_sum(k, ring, ring.last(), ring.len() as int)
    }
}

/// A measure of what a half plane keeps of an edge.
spec fn kept_part(k: Measure, a: Spot, b: Spot, axis: int, bound: real, greater: bool) -> real {
    let p = crossing(a, b, axis, bound);
    match (keeps(a, axis, bound, greater), keeps(b, axis, bound, greater)) {
        (true, true) => k(a, b),
        (true, false) => k(a, p),
        (false, true) => k(p, b),
        (false, false) => 0real,
    }
}

spec fn kept_measure(k: Measure, axis: int, bound: real, greater: bool) -> Measure {
    |a: Spot, b: Spot| kept_part(k, a, b, axis, bound, greater)
}

/// A measure takes nothing from edges along the bound.
spec fn idle_along(k: Measure, axis: int, bound: real) -> bool {
    forall|u: Spot, v: Spot|
        coord(u, axis) == bound && coord(v, axis) == bound ==> #[trigger] k(u, v) == 0real
}

proof fn lemma_path_prefix(k: Measure, s: Seq<Spot>, t: Seq<Spot>, from: Spot, n: int)
    requires
        0 <= n <= s.len() <= t.len(),
        forall|i: int| 0 <= i < s.len() ==> #[trigger] s[i] == t[i],
    ensures
        path_sum(k, s, from, n) == path_sum(k, t, from, n),
    decreases n,
{
    if n > 0 {
        lemma_path_prefix(k, s, t, from, n - 1);
        assert(s[n - 1] == t[n - 1]);
        if n > 1 {
            assert(s[n - 2] == t[n - 2]);
        }
    }
}

/// Where a path ends.
spec fn end_of_path(s: Seq<Spot>, from: Spot) -> Spot {
    if s.len() == 0 {
        from
    } else {
        s.last()
    }
}

proof fn lemma_path_push(k: Measure, s: Seq<Spot>, from: Spot, x: Spot)
    ensures
        path_sum(k, s.push(x), from, (s.len() + 1) as int) == path_sum(k, s, from, s.len() as int) + k(
            end_of_path(s, from),
            x,
        ),
{
    lemma_path_prefix(k, s, s.push(x), from, s.len() as int);
}

/// How clipping an edge goes on from what was kept before it.
pub(crate) proof fn lemma_clip_step(ring: Seq<Spot>, axis: int, bound: real, greater: bool, n: int)
    requires
        0 <= n < ring.len(),
    ensures
        ({
            let out = clipped_to(ring, axis, bound, greater, n);
            let next = clipped_to(ring, axis, bound, greater, n + 1);
            let a = previous(ring, n);
            let b = ring[n];
            let p = crossing(a, b, axis, bound);
            next == match (keeps(a, axis, bound, greater), keeps(b, axis, bound, greater)) {
                (true, true) => out.push(b),
                (true, false) => out.push(p),
                (false, true) => out.push(p).push(b),
                (false, false) => out,
            }
        }),
{
    let out = clipped_to(ring, axis, bound, greater, n);
    let next = clipped_to(ring, axis, bound, greater, n + 1);
    let a = previous(ring, n);
    let b = ring[n];
    let p = crossing(a, b, axis, bound);
    assert(next == out + edge_kept(a, b, axis, bound, greater));
    let expected = match (keeps(a, axis, bound, greater), keeps(b, axis, bound, greater)) {
        (true, true) => out.push(b),
        (true, false) => out.push(p),
        (false, true) => out.push(p).push(b),
        (false, false) => out,
    };
    assert(next =~= expected);
}

/// What was kept ends where the ring stands, or on the bound.
pub(crate) proof fn lemma_clip_end(ring: Seq<Spot>, axis: int, bound: real, greater: bool, n: int)
    requires
        axis == 0 || axis == 1,
        1 <= n <= ring.len(),
    ensures
        ({
            let out = clipped_to(ring, axis, bound, greater, n);
            let b = ring[n - 1];
            &&& keeps(b, axis, bound, greater) ==> out.len() > 0 && out.last() == b
            &&& !keeps(b, axis, bound, greater) && out.len() > 0 ==> coord(out.last(), axis)
                == bound
            &&& keeps(ring.last(), axis, bound, greater) ==> out.len() > 0
        }),
    decreases n,
{
    lemma_clip_step(ring, axis, bound, greater, n - 1);
    let a = previous(ring, n - 1);
    let b = ring[n - 1];
    if n > 1 {
        lemma_clip_end(ring, axis, bound, greater, n - 1);
    }
    if keeps(a, axis, bound, greater) && !keeps(b, axis, bound, greater) {
        let t = lemma_way(a, b, axis, bound, greater);
    }
}

/// Where the kept path stands before edge `n`, coming from where the whole kept ring ends.
proof fn lemma_clip_stands(ring: Seq<Spot>, axis: int, bound: real, greater: bool, n: int)
    requires
        axis == 0 || axis == 1,
        0 <= n < ring.len(),
        clipped(ring, axis, bound, greater).len() > 0,
    ensures
        ({
            let from = clipped(ring, axis, bound, greater).last();
            let at = end_of_path(clipped_to(ring, axis, bound, greater, n), from);
            let a = previous(ring, n);
            &&& keeps(a, axis, bound, greater) ==> at == a
            &&& !keeps(a, axis, bound, greater) ==> coord(at, axis) == bound
        }),
{
    lemma_clip_end(ring, axis, bound, greater, ring.len() as int);
    if n > 0 {
        lemma_clip_end(ring, axis, bound, greater, n);
    }
}

spec fn kept_sum(k: Measure, ring: Seq<Spot>, axis: int, bound: real, greater: bool, n: int) -> real
    decreases n,
{
    if n <= 0 {
        0real
    } else {
        kept_sum(k, ring, axis, bound, greater, n - 1) + kept_part(
            k,
            previous(ring, n - 1),
            ring[n - 1],
            axis,
            bound,
            greater,
        )
    }
}

proof fn lemma_clip_path(
    k: Measure,
    ring: Seq<Spot>,
    axis: int,
    bound: real,
    greater: bool,
    n: int,
)
    requires
        axis == 0 || axis == 1,
        0 <= n <= ring.len(),
        clipped(ring, axis, bound, greater).len() > 0,
        idle_along(k, axis, bound),
    ensures
        ({
            let from = clipped(ring, axis, bound, greater).last();
            let out = clipped_to(ring, axis, bound, greater, n);
            path_sum(k, out, from, out.len() as int) == kept_sum(k, ring, axis, bound, greater, n)
        }),
    decreases n,
{
    if n > 0 {
        lemma_clip_path(k, ring, axis, bound, greater, n - 1);
        lemma_clip_step(ring, axis, bound, greater, n - 1);
        lemma_clip_stands(ring, axis, bound, greater, n - 1);
        let from = clipped(ring, axis, bound, greater).last();
        let out = clipped_to(ring, axis, bound, greater, n - 1);
        let a = previous(ring, n - 1);
        let b = ring[n - 1];
        let p = crossing(a, b, axis, bound);
        let ka = keeps(a, axis, bound, greater);
        let kb = keeps(b, axis, bound, greater);
        if ka != kb {
            let t = lemma_way(a, b, axis, bound, greater);
        }
        if ka && kb {
            lemma_path_push(k, out, from, b);
        } else if ka {
            lemma_path_push(k, out, from, p);
        } else if kb {
            lemma_path_push(k, out, from, p);
            lemma_path_push(k, out.push(p), from, b);
            assert(k(end_of_path(out, from), p) == 0real);
        }
    }
}

proof fn lemma_nothing_kept(k: Measure, ring: Seq<Spot>, axis: int, bound: real, greater: bool, n: int)
    requires
        axis == 0 || axis == 1,
        0 <= n <= ring.len(),
        clipped(ring, axis, bound, greater).len() == 0,
    ensures
        kept_sum(k, ring, axis, bound, greater, n) == 0real,
        clipped_to(ring, axis, bound, greater, n).len() <= clipped(
            ring,
            axis,
            bound,
            greater,
        ).len(),
    decreases n,
{
    lemma_growing(ring, axis, bound, greater, n, ring.len() as int);
    if n > 0 {
        lemma_nothing_kept(k, ring, axis, bound, greater, n - 1);
        lemma_clip_step(ring, axis, bound, greater, n - 1);
    }
}

proof fn lemma_growing(ring: Seq<Spot>, axis: int, bound: real, greater: bool, n: int, m: int)
    requires
        0 <= n <= m <= ring.len(),
    ensures
        clipped_to(ring, axis, bound, greater, n).len() <= clipped_to(
            ring,
            axis,
            bound,
            greater,
            m,
        ).len(),
    decreases m - n,
{
    if n < m {
        lemma_growing(ring, axis, bound, greater, n, m - 1);
    }
}

/// A measure of a clipped ring is that measure of what the half plane keeps of its edges, where
/// edges along the bound measure nothing.
proof fn lemma_clip_sum(k: Measure, ring: Seq<Spot>, axis: int, bound: real, greater: bool)
    requires
        axis == 0 || axis == 1,
        idle_along(k, axis, bound),
    ensures
        ring_sum(k, clipped(ring, axis, bound, greater)) == kept_sum(
            k,
            ring,
            axis,
            bound,
            greater,
            ring.len() as int,
        ),
{
    if clipped(ring, axis, bound, greater).len() > 0 {
        lemma_clip_path(k, ring, axis, bound, greater, ring.len() as int);
    } else {
        lemma_nothing_kept(k, ring, axis, bound, greater, ring.len() as int);
    }
}

/// Twice the area between an edge and the line at `level`.
spec fn swept(axis: int, level: real) -> Measure {
    |u: Spot, v: Spot|
        ((coord(u, axis) - level) + (coord(v, axis) - level)) * (coord(v, 1 - axis) - coord(
            u,
            1 - axis,
        ))
}

proof fn lemma_swept_idle(axis: int, level: real)
    ensures
        idle_along(swept(axis, level), axis, level),
{
    assert forall|u: Spot, v: Spot|
        coord(u, axis) == level && coord(v, axis) == level implies #[trigger] swept(axis, level)(
        u,
        v,
    ) == 0real by {
        lemma_nothing(coord(v, 1 - axis) - coord(u, 1 - axis));
    }
}

/// Which way an axis turns.
spec fn turned_by(axis: int, v: real) -> real {
    if axis == 0 {
        v
    } else {
        0real - v
    }
}

spec fn corner_term(axis: int, level: real, o: Spot, p: Spot) -> real {
    if axis == 0 {
        p.0 * p.1 - 2real * level * p.1 - p.0 * o.1 + o.0 * p.1
    } else {
        p.0 * p.1 - 2real * level * p.0 + p.0 * o.1 - o.0 * p.1
    }
}

proof fn lemma_edge_term(axis: int, level: real, o: Spot, a: Spot, b: Spot)
    requires
        axis == 0 || axis == 1,
    ensures
        swept(axis, level)(a, b) == turned_by(
            axis,
            (a.0 - o.0) * (b.1 - o.1) - (b.0 - o.0) * (a.1 - o.1),
        ) + corner_term(axis, level, o, b) - corner_term(axis, level, o, a),
{
    let (ax, ay) = a;
    let (bx, by) = b;
    let (ox, oy) = o;
    let c = 2real * level;
    lemma_differences(ax, ox, by, oy);
    lemma_differences(bx, ox, ay, oy);
    if axis == 0 {
        let s = (ax - level) + (bx - level);
        assert(s == (ax + bx) - c);
        lemma_scaled(by - ay, s, (ax + bx) - c);
        lemma_turned(by - ay, s);
        lemma_turned(by - ay, (ax + bx) - c);
        lemma_differences(ax + bx, c, by, ay);
        lemma_spread(by, ax, bx);
        lemma_turned(by, ax + bx);
        lemma_turned(by, ax);
        lemma_turned(by, bx);
        lemma_spread(ay, ax, bx);
        lemma_turned(ay, ax + bx);
        lemma_turned(ay, ax);
        lemma_turned(ay, bx);
    } else {
        let s = (ay - level) + (by - level);
        assert(s == (ay + by) - c);
        lemma_scaled(bx - ax, s, (ay + by) - c);
        lemma_turned(bx - ax, s);
        lemma_turned(bx - ax, (ay + by) - c);
        lemma_differences(ay + by, c, bx, ax);
        lemma_spread(bx, ay, by);
        lemma_turned(bx, ay + by);
        lemma_turned(bx, ay);
        lemma_turned(bx, by);
        lemma_spread(ax, ay, by);
        lemma_turned(ax, ay + by);
        lemma_turned(ax, ay);
        lemma_turned(ax, by);
    }
}

proof fn lemma_swept_path(axis: int, level: real, ring: Seq<Spot>, n: int)
    requires
        axis == 0 || axis == 1,
        0 <= n <= ring.len(),
        ring.len() > 0,
    ensures
        path_sum(swept(axis, level), ring, ring.last(), n) == turned_by(axis, turned(ring, n))
            + corner_term(axis, level, ring[0], before(ring, ring.last(), n)) - corner_term(
            axis,
            level,
            ring[0],
            ring.last(),
        ),
    decreases n,
{
    if n > 0 {
        lemma_swept_path(axis, level, ring, n - 1);
        assert(before(ring, ring.last(), n - 1) == previous(ring, n - 1));
        lemma_edge_term(axis, level, ring[0], previous(ring, n - 1), ring[n - 1]);
    }
}

/// The area that the edges of a ring sweep is the area that it turns about, from whatever line.
proof fn lemma_swept_ring(axis: int, level: real, ring: Seq<Spot>)
    requires
        axis == 0 || axis == 1,
    ensures
        ring_sum(swept(axis, level), ring) == turned_by(axis, turned(ring, ring.len() as int)),
{
    if ring.len() > 0 {
        lemma_swept_path(axis, level, ring, ring.len() as int);
    }
}

/// What both sides of a bound keep of an edge is the edge.
proof fn lemma_edge_divided(a: Spot, b: Spot, axis: int, bound: real)
    requires
        axis == 0 || axis == 1,
    ensures
        kept_part(swept(axis, bound), a, b, axis, bound, true) + kept_part(
            swept(axis, bound),
            a,
            b,
            axis,
            bound,
            false,
        ) == swept(axis, bound)(a, b),
{
    let k = swept(axis, bound);
    let p = crossing(a, b, axis, bound);
    let x = coord(a, axis) - bound;
    let y = coord(b, axis) - bound;
    let d = coord(b, 1 - axis) - coord(a, 1 - axis);
    if x == 0real && y == 0real {
        lemma_nothing(d);
    } else if (x >= 0real) != (y >= 0real) || (x <= 0real) != (y <= 0real) {
        let g = (x >= 0real) != (y >= 0real);
        let t = lemma_way(a, b, axis, bound, g);
        let m = t * d;
        let f = coord(b, 1 - axis) - coord(p, 1 - axis);
        assert(coord(p, 1 - axis) - coord(a, 1 - axis) == m);
        assert(f == d - m);
        assert(0real - x == t * (y - x));
        assert(k(a, p) == (x + 0real) * m);
        assert(k(p, b) == (0real + y) * f);
        // (y - x) * m == (t * (y - x)) * d == 0 - x * d.
        lemma_assoc(t, y - x, d);
        lemma_turned(y - x, d);
        lemma_assoc(t, d, y - x);
        lemma_turned(m, y - x);
        lemma_minus(d, 0real, x);
        lemma_nothing(d);
        lemma_minus(m, y, x);
        lemma_minus(y, d, m);
        lemma_scaled(y, f, d - m);
        lemma_spread(d, x, y);
        lemma_turned(d, x + y);
        lemma_turned(d, x);
        lemma_turned(d, y);
        assert(k(a, p) + k(p, b) == k(a, b));
        if x == 0real {
            lemma_nothing(y);
            lemma_cancelled(t, 0real, y);
            lemma_nothing(d);
            lemma_nothing(m);
            assert(k(a, p) == 0real);
        }
        if y == 0real {
            lemma_one(0real - x);
            lemma_turned(0real - x, 1real);
            lemma_cancelled(t, 1real, 0real - x);
            lemma_nothing(f);
            assert(k(p, b) == 0real);
        }
    }
}

proof fn lemma_ring_divided(ring: Seq<Spot>, axis: int, bound: real, n: int)
    requires
        axis == 0 || axis == 1,
        0 <= n <= ring.len(),
        ring.len() > 0,
    ensures
        kept_sum(swept(axis, bound), ring, axis, bound, true, n) + kept_sum(
            swept(axis, bound),
            ring,
            axis,
            bound,
            false,
            n,
        ) == path_sum(swept(axis, bound), ring, ring.last(), n),
    decreases n,
{
    if n > 0 {
        lemma_ring_divided(ring, axis, bound, n - 1);
        assert(before(ring, ring.last(), n - 1) == previous(ring, n - 1));
        lemma_edge_divided(previous(ring, n - 1), ring[n - 1], axis, bound);
    }
}

/// Twice the signed area of a ring.
pub open spec fn doubled_area(ring: Seq<Spot>) -> real {
    turned(ring, ring.len() as int)
}

/// A bound divides a ring without loss: the signed areas of what its two sides keep add up to the
/// signed area of the ring, whatever the ring.
pub proof fn a_bound_divides_a_ring(ring: Seq<Spot>, axis: int, bound: real)
    requires
        axis == 0 || axis == 1,
    ensures
        doubled_area(clipped(ring, axis, bound, true)) + doubled_area(
            clipped(ring, axis, bound, false),
        ) == doubled_area(ring),
{
    let k = swept(axis, bound);
    lemma_swept_idle(axis, bound);
    lemma_clip_sum(k, ring, axis, bound, true);
    lemma_clip_sum(k, ring, axis, bound, false);
    lemma_swept_ring(axis, bound, clipped(ring, axis, bound, true));
    lemma_swept_ring(axis, bound, clipped(ring, axis, bound, false));
    lemma_swept_ring(axis, bound, ring);
    if ring.len() > 0 {
        lemma_ring_divided(ring, axis, bound, ring.len() as int);
    }
}

/// Where a shortened edge meets a further bound, the whole edge meets it.
proof fn lemma_same_far(a: Spot, b: Spot, axis: int, near: real, far: real)
    requires
        axis == 0 || axis == 1,
        coord(a, axis) != coord(b, axis),
        near != coord(a, axis),
    ensures
        crossing(a, crossing(a, b, axis, near), axis, far) == crossing(a, b, axis, far),
{
    let m = near - coord(a, axis);
    let n = far - coord(a, axis);
    let w = coord(b, axis) - coord(a, axis);
    let d = coord(b, 1 - axis) - coord(a, 1 - axis);
    let t = m / w;
    let q = n / m;
    let p = crossing(a, b, axis, near);
    assert(coord(p, axis) == near);
    assert(coord(p, 1 - axis) - coord(a, 1 - axis) == t * d);
    lemma_quotient(m, w);
    lemma_quotient(n, m);
    lemma_quotient(n, w);
    lemma_assoc(q, t, w);
    lemma_scaled(q, t * w, m);
    lemma_cancelled(q * t, n / w, w);
    lemma_assoc(q, t, d);
}

/// The same, from the other end.
proof fn lemma_same_near(a: Spot, b: Spot, axis: int, near: real, far: real)
    requires
        axis == 0 || axis == 1,
        coord(a, axis) != coord(b, axis),
        near != coord(b, axis),
    ensures
        crossing(crossing(a, b, axis, near), b, axis, far) == crossing(a, b, axis, far),
{
    let m = near - coord(a, axis);
    let n = far - coord(a, axis);
    let w = coord(b, axis) - coord(a, axis);
    let d = coord(b, 1 - axis) - coord(a, 1 - axis);
    let t = m / w;
    let r = (far - near) / (coord(b, axis) - near);
    let p = crossing(a, b, axis, near);
    let u = 1real - t;
    assert(coord(p, axis) == near);
    assert(coord(p, 1 - axis) - coord(a, 1 - axis) == t * d);
    lemma_quotient(m, w);
    lemma_quotient(n, w);
    lemma_quotient(far - near, coord(b, axis) - near);
    lemma_minus(w, 1real, t);
    lemma_one(w);
    lemma_turned(w, 1real);
    assert(u * w == coord(b, axis) - near);
    lemma_minus(d, 1real, t);
    lemma_one(d);
    lemma_turned(d, 1real);
    assert(u * d == d - t * d);
    lemma_assoc(r, u, w);
    lemma_scaled(r, u * w, coord(b, axis) - near);
    lemma_spread(w, t, r * u);
    lemma_turned(w, t + r * u);
    lemma_turned(w, t);
    lemma_turned(w, r * u);
    lemma_cancelled(t + r * u, n / w, w);
    lemma_assoc(r, u, d);
    lemma_scaled(r, u * d, d - t * d);
    lemma_spread(d, t, r * u);
    lemma_turned(d, t + r * u);
    lemma_turned(d, t);
    lemma_turned(d, r * u);
}

/// What a bound leaves beyond a second bound is what that one leaves of the whole edge.
proof fn lemma_nested_edge(a: Spot, b: Spot, axis: int, near: real, far: real)
    requires
        axis == 0 || axis == 1,
        near <= far,
    ensures
        ({
            let k = kept_measure(swept(axis, far), axis, far, true);
            kept_part(k, a, b, axis, near, true) == k(a, b)
        }),
{
    let k = kept_measure(swept(axis, far), axis, far, true);
    let x = coord(a, axis);
    let y = coord(b, axis);
    let p = crossing(a, b, axis, near);
    if x >= near && y < near {
        assert(coord(p, axis) == near);
        if near < far && x >= far {
            lemma_same_far(a, b, axis, near, far);
        }
    } else if x < near && y >= near {
        assert(coord(p, axis) == near);
        if near < far && y >= far {
            lemma_same_near(a, b, axis, near, far);
        }
    }
}

proof fn lemma_nested_path(ring: Seq<Spot>, axis: int, near: real, far: real, n: int)
    requires
        axis == 0 || axis == 1,
        near <= far,
        0 <= n <= ring.len(),
    ensures
        kept_sum(
            kept_measure(swept(axis, far), axis, far, true),
            ring,
            axis,
            near,
            true,
            n,
        ) == kept_sum(swept(axis, far), ring, axis, far, true, n),
    decreases n,
{
    if n > 0 {
        lemma_nested_path(ring, axis, near, far, n - 1);
        lemma_nested_edge(previous(ring, n - 1), ring[n - 1], axis, near, far);
    }
}

proof fn lemma_kept_path(k: Measure, ring: Seq<Spot>, axis: int, bound: real, greater: bool, n: int)
    requires
        0 <= n <= ring.len(),
        ring.len() > 0,
    ensures
        kept_sum(k, ring, axis, bound, greater, n) == path_sum(
            kept_measure(k, axis, bound, greater),
            ring,
            ring.last(),
            n,
        ),
    decreases n,
{
    if n > 0 {
        lemma_kept_path(k, ring, axis, bound, greater, n - 1);
        assert(before(ring, ring.last(), n - 1) == previous(ring, n - 1));
    }
}

/// Clipping at one bound and then at one beyond it leaves the area that the second alone leaves.
pub proof fn a_further_bound_leaves_what_it_leaves_alone(
    ring: Seq<Spot>,
    axis: int,
    near: real,
    far: real,
)
    requires
        axis == 0 || axis == 1,
        near <= far,
    ensures
        doubled_area(clipped(clipped(ring, axis, near, true), axis, far, true)) == doubled_area(
            clipped(ring, axis, far, true),
        ),
{
    let e = swept(axis, far);
    let k = kept_measure(e, axis, far, true);
    let first = clipped(ring, axis, near, true);
    lemma_swept_idle(axis, far);
    assert(idle_along(k, axis, near)) by {
        assert forall|u: Spot, v: Spot|
            coord(u, axis) == near && coord(v, axis) == near implies #[trigger] k(u, v) == 0real by {
            if near == far {
                assert(e(u, v) == 0real);
            }
        }
    }
    lemma_swept_ring(axis, far, clipped(first, axis, far, true));
    lemma_clip_sum(e, first, axis, far, true);
    lemma_swept_ring(axis, far, clipped(ring, axis, far, true));
    lemma_clip_sum(e, ring, axis, far, true);
    lemma_clip_sum(k, ring, axis, near, true);
    lemma_nested_path(ring, axis, near, far, ring.len() as int);
    if first.len() > 0 {
        lemma_kept_path(e, first, axis, far, true, first.len() as int);
    }
}

/// What lies of a ring between two neighbouring lines of the grid.
pub open spec fn slice(ring: Seq<Spot>, axis: int, at: int) -> Seq<Spot> {
    clipped(clipped(ring, axis, at as real, true), axis, (at + 1) as real, false)
}

/// The signed areas, doubled, of the slices from `lo` up to `hi`.
pub open spec fn slices_area(ring: Seq<Spot>, axis: int, lo: int, hi: int) -> real
    decreases hi - lo,
{
    if hi <= lo {
        0real
    } else {
        slices_area(ring, axis, lo, hi - 1) + doubled_area(slice(ring, axis, hi - 1))
    }
}

proof fn lemma_slices(ring: Seq<Spot>, axis: int, lo: int, hi: int)
    requires
        axis == 0 || axis == 1,
        lo <= hi,
    ensures
        slices_area(ring, axis, lo, hi) == doubled_area(clipped(ring, axis, lo as real, true))
            - doubled_area(clipped(ring, axis, hi as real, true)),
    decreases hi - lo,
{
    if lo < hi {
        lemma_slices(ring, axis, lo, hi - 1);
        let c = (hi - 1) as real;
        let d = hi as real;
        assert(((hi - 1) + 1) as real == d);
        a_bound_divides_a_ring(clipped(ring, axis, c, true), axis, d);
        a_further_bound_leaves_what_it_leaves_alone(ring, axis, c, d);
    }
}

/// Every corner lies from `lo` to `hi`.
pub open spec fn within(ring: Seq<Spot>, axis: int, lo: int, hi: int) -> bool {
    forall|i: int|
        0 <= i < ring.len() ==> lo as real <= coord(#[trigger] ring[i], axis) <= hi as real
}

/// The slices of a ring that lies from `lo` to `hi` add up to the ring.
pub proof fn slices_add_up(ring: Seq<Spot>, axis: int, lo: int, hi: int)
    requires
        axis == 0 || axis == 1,
        lo <= hi,
        within(ring, axis, lo, hi),
    ensures
        slices_area(ring, axis, lo, hi) == doubled_area(ring),
{
    lemma_slices(ring, axis, lo, hi);
    assert forall|i: int| 0 <= i < ring.len() implies keeps(
        #[trigger] ring[i],
        axis,
        lo as real,
        true,
    ) && keeps(ring[i], axis, hi as real, false) by {}
    a_kept_ring_is_left_as_it_is(ring, axis, lo as real, true);
    a_kept_ring_is_left_as_it_is(ring, axis, hi as real, false);
    a_bound_divides_a_ring(ring, axis, hi as real);
}

proof fn lemma_clipped_within(
    ring: Seq<Spot>,
    of: int,
    lo: int,
    hi: int,
    axis: int,
    bound: real,
    greater: bool,
    n: int,
)
    requires
        of == 0 || of == 1,
        axis == 0 || axis == 1,
        within(ring, of, lo, hi),
        0 <= n <= ring.len(),
    ensures
        within(clipped_to(ring, axis, bound, greater, n), of, lo, hi),
    decreases n,
{
    if n > 0 {
        lemma_clipped_within(ring, of, lo, hi, axis, bound, greater, n - 1);
        lemma_clip_step(ring, axis, bound, greater, n - 1);
        let a = previous(ring, n - 1);
        let b = ring[n - 1];
        let p = crossing(a, b, axis, bound);
        if n > 1 {
            assert(a == ring[n - 2]);
        } else {
            assert(a == ring[ring.len() - 1]);
        }
        if keeps(a, axis, bound, greater) != keeps(b, axis, bound, greater) {
            a_crossing_lies_on_its_edge(a, b, axis, bound, greater);
            assert(between(coord(a, of), coord(p, of), coord(b, of)));
        }
    }
}

proof fn lemma_slice_within(ring: Seq<Spot>, of: int, lo: int, hi: int, axis: int, at: int)
    requires
        of == 0 || of == 1,
        axis == 0 || axis == 1,
        within(ring, of, lo, hi),
    ensures
        within(slice(ring, axis, at), of, lo, hi),
{
    let first = clipped(ring, axis, at as real, true);
    lemma_clipped_within(ring, of, lo, hi, axis, at as real, true, ring.len() as int);
    lemma_clipped_within(first, of, lo, hi, axis, (at + 1) as real, false, first.len() as int);
}

/// The signed areas, doubled, of the parts of a ring in the cells of the rows from `lo` up to `hi`.
pub open spec fn cells_area(ring: Seq<Spot>, xmin: int, xmax: int, lo: int, hi: int) -> real
    decreases hi - lo,
{
    if hi <= lo {
        0real
    } else {
        cells_area(ring, xmin, xmax, lo, hi - 1) + row_area(ring, hi - 1, xmin, xmax)
    }
}

/// The same, of the cells of one row.
pub open spec fn row_area(ring: Seq<Spot>, row: int, xmin: int, xmax: int) -> real
    decreases xmax - xmin,
{
    if xmax <= xmin {
        0real
    } else {
        row_area(ring, row, xmin, xmax - 1) + doubled_area(in_cell(ring, row, xmax - 1))
    }
}

proof fn lemma_row_slices(ring: Seq<Spot>, row: int, xmin: int, xmax: int)
    ensures
        row_area(ring, row, xmin, xmax) == slices_area(strip(ring, row), 0, xmin, xmax),
    decreases xmax - xmin,
{
    if xmin < xmax {
        lemma_row_slices(ring, row, xmin, xmax - 1);
        assert(in_cell(ring, row, xmax - 1) == slice(strip(ring, row), 0, xmax - 1));
    }
}

proof fn lemma_cells_slices(ring: Seq<Spot>, xmin: int, xmax: int, lo: int, hi: int)
    requires
        xmin <= xmax,
        within(ring, 0, xmin, xmax),
    ensures
        cells_area(ring, xmin, xmax, lo, hi) == slices_area(ring, 1, lo, hi),
    decreases hi - lo,
{
    if lo < hi {
        lemma_cells_slices(ring, xmin, xmax, lo, hi - 1);
        lemma_row_slices(ring, hi - 1, xmin, xmax);
        assert(strip(ring, hi - 1) == slice(ring, 1, hi - 1));
        lemma_slice_within(ring, 0, xmin, xmax, 1, hi - 1);
        slices_add_up(strip(ring, hi - 1), 0, xmin, xmax);
    }
}

/// The parts of a ring in the cells of a window that holds it add up to the ring, whatever the
/// ring: their signed areas have its signed area as their sum.
pub proof fn the_cells_of_a_window_hold_a_ring(
    ring: Seq<Spot>,
    xmin: int,
    xmax: int,
    lo: int,
    hi: int,
)
    requires
        xmin <= xmax,
        lo <= hi,
        within(ring, 0, xmin, xmax),
        within(ring, 1, lo, hi),
    ensures
        cells_area(ring, xmin, xmax, lo, hi) == doubled_area(ring),
{
    lemma_cells_slices(ring, xmin, xmax, lo, hi);
    slices_add_up(ring, 1, lo, hi);
}

} // verus!
