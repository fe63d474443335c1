//! What the records of an index hold: each the count and the extremes of the valid cells of its
//! rectangle, the tiles from the cells and every record above them from its children alone.
use vstd::prelude::*;

use crate::error::Error;
use crate::hierarchy::{a_child_is_a_node_below, children_of};
use crate::layout::{box_at, end_of, lemma_node, level_at, widen, SummaryLayout};
use crate::persistent_joint::Terrain;
use crate::persistent_page::{
    cell_at, child_extreme, counts_to, extreme_to, parent_state, place, valid_to, BandState, Part,
};
use crate::persistent_walk::{children_hold_what_their_parent_holds, holders, Walk};
use crate::shared_rows::{rank, INFINITY, NEG_INFINITY};
use crate::skv_header::finite_bits;

verus! {

/// A band of the source: which cells are valid, and their values, by column and row.
pub ghost struct Field {
    pub valid: spec_fn(int, int) -> bool,
    pub value: spec_fn(int, int) -> u64,
}

impl Field {
    /// The values of valid cells are finite.
    pub open spec fn finite(self) -> bool {
        forall|x: int, y: int| #[trigger] (self.valid)(x, y) ==> finite_bits((self.value)(x, y))
    }
}

/// A cell lies in the rectangle of a record.
pub open spec fn holds(t: Terrain, node: int, x: int, y: int) -> bool {
    let b = box_at(t.levels, t.tile_edge, t.width, t.height, node);
    b.0 <= x < b.2 && b.1 <= y < b.3
}

/// How many of the first `n` cells of a row are valid cells of a record.
pub open spec fn row_valid(f: Field, t: Terrain, node: int, y: int, n: int) -> int
    decreases n,
{
    if n <= 0 {
        0
    } else {
        row_valid(f, t, node, y, n - 1) + if holds(t, node, n - 1, y) && (f.valid)(n - 1, y) {
            1int
        } else {
            0
        }
    }
}

/// How many valid cells of a record the first `n` rows have.
pub open spec fn rows_valid(f: Field, t: Terrain, node: int, n: int) -> int
    decreases n,
{
    if n <= 0 {
        0
    } else {
        rows_valid(f, t, node, n - 1) + row_valid(f, t, node, n - 1, t.width)
    }
}

/// How many valid cells the rectangle of a record has.
pub open spec fn valid_cells(f: Field, t: Terrain, node: int) -> int {
    rows_valid(f, t, node, t.height)
}

/// A rank is not passed by another: upwards, or downwards.
pub open spec fn reaches(up: bool, r: int, other: int) -> bool {
    if up {
        other <= r
    } else {
        r <= other
    }
}

/// A valid cell of the rectangle of a record.
pub open spec fn valid_at(f: Field, t: Terrain, node: int, x: int, y: int) -> bool {
    0 <= x < t.width && 0 <= y < t.height && holds(t, node, x, y) && (f.valid)(x, y)
}

/// A rank is the extreme one of the valid cells of a record: one of them has it, and none passes
/// it.
pub open spec fn extreme(f: Field, t: Terrain, node: int, up: bool, r: int) -> bool {
    &&& exists|x: int, y: int| #[trigger] valid_at(f, t, node, x, y) && rank((f.value)(x, y)) == r
    &&& forall|x: int, y: int| #[trigger]
        valid_at(f, t, node, x, y) ==> reaches(up, r, rank((f.value)(x, y)))
}

/// A state is that of a record's rectangle.
pub open spec fn sums_up(f: Field, t: Terrain, node: int, s: BandState) -> bool {
    &&& s.count == valid_cells(f, t, node)
    &&& if s.count > 0 {
        extreme(f, t, node, false, rank(s.min)) && extreme(f, t, node, true, rank(s.max))
    } else {
        s.min == 0 && s.max == 0
    }
}

/// The states of some records, in the order of a list of records.
pub open spec fn states_at(states: Seq<BandState>, nodes: Seq<int>) -> Seq<BandState> {
    nodes.map_values(|n: int| states[n])
}

/// A state is merged from those of the children of a record.
pub open spec fn merged(states: Seq<BandState>, levels: Seq<(int, int, int)>, node: int, s: BandState) -> bool {
    let children = states_at(states, children_of(levels, node));
    let n = children.len() as int;
    &&& s.count == counts_to(children, n)
    &&& if s.count > 0 {
        rank(s.min) == child_extreme(false, children, n) && rank(s.max) == child_extreme(
            true,
            children,
            n,
        )
    } else {
        s.min == 0 && s.max == 0
    }
}

proof fn lemma_finite_rank(bits: u64)
    requires
        finite_bits(bits),
    ensures
        rank(NEG_INFINITY) < rank(bits) < rank(INFINITY),
{
}

proof fn lemma_row_nonneg(f: Field, t: Terrain, node: int, y: int, n: int)
    ensures
        row_valid(f, t, node, y, n) >= 0,
    decreases n,
{
    if n > 0 {
        lemma_row_nonneg(f, t, node, y, n - 1);
    }
}

proof fn lemma_rows_nonneg(f: Field, t: Terrain, node: int, n: int)
    ensures
        rows_valid(f, t, node, n) >= 0,
    decreases n,
{
    if n > 0 {
        lemma_rows_nonneg(f, t, node, n - 1);
        lemma_row_nonneg(f, t, node, n - 1, t.width);
    }
}

proof fn lemma_row_some(f: Field, t: Terrain, node: int, x: int, y: int, n: int)
    requires
        0 <= x < n,
        holds(t, node, x, y),
        (f.valid)(x, y),
    ensures
        row_valid(f, t, node, y, n) >= 1,
    decreases n,
{
    lemma_row_nonneg(f, t, node, y, n - 1);
    if x < n - 1 {
        lemma_row_some(f, t, node, x, y, n - 1);
    }
}

proof fn lemma_rows_some(f: Field, t: Terrain, node: int, x: int, y: int, n: int)
    requires
        0 <= y < n,
        0 <= x < t.width,
        holds(t, node, x, y),
        (f.valid)(x, y),
    ensures
        rows_valid(f, t, node, n) >= 1,
    decreases n,
{
    lemma_rows_nonneg(f, t, node, n - 1);
    lemma_row_nonneg(f, t, node, n - 1, t.width);
    if y < n - 1 {
        lemma_rows_some(f, t, node, x, y, n - 1);
    } else {
        lemma_row_some(f, t, node, x, y, t.width);
    }
}

/// A record with a valid cell counts one.
proof fn lemma_some(f: Field, t: Terrain, node: int, x: int, y: int)
    requires
        valid_at(f, t, node, x, y),
    ensures
        valid_cells(f, t, node) >= 1,
{
    lemma_rows_some(f, t, node, x, y, t.height);
}

/// In how many records of a list a cell lies.
spec fn held_by(t: Terrain, nodes: Seq<int>, x: int, y: int) -> int
    decreases nodes.len(),
{
    if nodes.len() == 0 {
        0
    } else {
        held_by(t, nodes.drop_last(), x, y) + if holds(t, nodes.last(), x, y) {
            1int
        } else {
            0
        }
    }
}

spec fn row_total(f: Field, t: Terrain, nodes: Seq<int>, y: int, n: int) -> int
    decreases nodes.len(),
{
    if nodes.len() == 0 {
        0
    } else {
        row_total(f, t, nodes.drop_last(), y, n) + row_valid(f, t, nodes.last(), y, n)
    }
}

spec fn rows_total(f: Field, t: Terrain, nodes: Seq<int>, n: int) -> int
    decreases nodes.len(),
{
    if nodes.len() == 0 {
        0
    } else {
        rows_total(f, t, nodes.drop_last(), n) + rows_valid(f, t, nodes.last(), n)
    }
}

proof fn lemma_row_step(f: Field, t: Terrain, nodes: Seq<int>, y: int, n: int)
    requires
        n > 0,
    ensures
        row_total(f, t, nodes, y, n) == row_total(f, t, nodes, y, n - 1) + if (f.valid)(n - 1, y) {
            held_by(t, nodes, n - 1, y)
        } else {
            0
        },
    decreases nodes.len(),
{
    if nodes.len() > 0 {
        lemma_row_step(f, t, nodes.drop_last(), y, n);
    }
}

proof fn lemma_row_zero(f: Field, t: Terrain, nodes: Seq<int>, y: int)
    ensures
        row_total(f, t, nodes, y, 0) == 0,
    decreases nodes.len(),
{
    if nodes.len() > 0 {
        lemma_row_zero(f, t, nodes.drop_last(), y);
    }
}

proof fn lemma_row_split(f: Field, t: Terrain, node: int, nodes: Seq<int>, y: int, n: int)
    requires
        0 <= n,
        forall|x: int|
            0 <= x < n ==> #[trigger] held_by(t, nodes, x, y) == (if holds(t, node, x, y) {
                1int
            } else {
                0
            }),
    ensures
        row_total(f, t, nodes, y, n) == row_valid(f, t, node, y, n),
    decreases n,
{
    if n > 0 {
        lemma_row_split(f, t, node, nodes, y, n - 1);
        lemma_row_step(f, t, nodes, y, n);
        assert(held_by(t, nodes, n - 1, y) == (if holds(t, node, n - 1, y) {
            1int
        } else {
            0
        }));
    } else {
        lemma_row_zero(f, t, nodes, y);
    }
}

proof fn lemma_rows_step(f: Field, t: Terrain, nodes: Seq<int>, n: int)
    requires
        n > 0,
    ensures
        rows_total(f, t, nodes, n) == rows_total(f, t, nodes, n - 1) + row_total(
            f,
            t,
            nodes,
            n - 1,
            t.width,
        ),
    decreases nodes.len(),
{
    if nodes.len() > 0 {
        lemma_rows_step(f, t, nodes.drop_last(), n);
    }
}

proof fn lemma_rows_zero(f: Field, t: Terrain, nodes: Seq<int>)
    ensures
        rows_total(f, t, nodes, 0) == 0,
    decreases nodes.len(),
{
    if nodes.len() > 0 {
        lemma_rows_zero(f, t, nodes.drop_last());
    }
}

proof fn lemma_rows_split(f: Field, t: Terrain, node: int, nodes: Seq<int>, n: int)
    requires
        0 <= n <= t.height,
        0 <= t.width,
        forall|x: int, y: int|
            0 <= x < t.width && 0 <= y < t.height ==> #[trigger] held_by(t, nodes, x, y) == (if holds(
                t,
                node,
                x,
                y,
            ) {
                1int
            } else {
                0
            }),
    ensures
        rows_total(f, t, nodes, n) == rows_valid(f, t, node, n),
    decreases n,
{
    if n > 0 {
        lemma_rows_split(f, t, node, nodes, n - 1);
        lemma_rows_step(f, t, nodes, n);
        lemma_row_split(f, t, node, nodes, n - 1, t.width);
    } else {
        lemma_rows_zero(f, t, nodes);
    }
}

/// Where each record of a list sums its rectangle up, their counts add up.
proof fn lemma_counts(f: Field, t: Terrain, nodes: Seq<int>, states: Seq<BandState>)
    requires
        forall|i: int|
            0 <= i < nodes.len() ==> states[#[trigger] nodes[i]].count == valid_cells(
                f,
                t,
                nodes[i],
            ),
    ensures
        counts_to(states_at(states, nodes), nodes.len() as int) == rows_total(f, t, nodes, t.height),
    decreases nodes.len(),
{
    if nodes.len() > 0 {
        let shorter = nodes.drop_last();
        let n = nodes.len() as int;
        assert forall|i: int| 0 <= i < shorter.len() implies states[#[trigger] shorter[i]].count
            == valid_cells(f, t, shorter[i]) by {
            assert(shorter[i] == nodes[i]);
        }
        lemma_counts(f, t, shorter, states);
        lemma_counts_prefix(states_at(states, nodes), states_at(states, shorter), n - 1);
        assert(states_at(states, nodes)[n - 1] == states[nodes[n - 1]]);
    }
}

proof fn lemma_counts_prefix(a: Seq<BandState>, b: Seq<BandState>, n: int)
    requires
        n <= a.len(),
        n <= b.len(),
        forall|i: int| 0 <= i < n ==> a[i] == b[i],
    ensures
        counts_to(a, n) == counts_to(b, n),
    decreases n,
{
    if n > 0 {
        lemma_counts_prefix(a, b, n - 1);
    }
}

/// The extreme of some states: none passes it, and one has it where one counts.
proof fn lemma_extremes(up: bool, states: Seq<BandState>, n: int)
    requires
        0 <= n <= states.len(),
        forall|i: int|
            0 <= i < n && (#[trigger] states[i]).count > 0 ==> rank(NEG_INFINITY) < rank(
                states[i].max,
            ) && rank(states[i].min) < rank(INFINITY),
    ensures
        forall|i: int|
            0 <= i < n && (#[trigger] states[i]).count > 0 ==> reaches(
                up,
                child_extreme(up, states, n),
                rank(
                    if up {
                        states[i].max
                    } else {
                        states[i].min
                    },
                ),
            ),
        counts_to(states, n) > 0 ==> exists|i: int|
            0 <= i < n && (#[trigger] states[i]).count > 0 && rank(
                if up {
                    states[i].max
                } else {
                    states[i].min
                },
            ) == child_extreme(up, states, n),
        counts_to(states, n) >= 0,
        counts_to(states, n) == 0 ==> child_extreme(up, states, n) == rank(
            if up {
                NEG_INFINITY
            } else {
                INFINITY
            },
        ),
    decreases n,
{
    if n > 0 {
        lemma_extremes(up, states, n - 1);
        let c = states[n - 1];
        let own = rank(
            if up {
                c.max
            } else {
                c.min
            },
        );
        let before = child_extreme(up, states, n - 1);
        if counts_to(states, n) > 0 {
            if c.count > 0 && child_extreme(up, states, n) == own {
                assert(states[n - 1].count > 0);
            } else {
                assert(counts_to(states, n - 1) > 0);
                let i = choose|i: int|
                    0 <= i < n - 1 && (#[trigger] states[i]).count > 0 && rank(
                        if up {
                            states[i].max
                        } else {
                            states[i].min
                        },
                    ) == before;
                assert(states[i].count > 0);
            }
        }
    }
}

/// A cell that lies in a record of a list lies in one of them.
proof fn lemma_holder(t: Terrain, nodes: Seq<int>, x: int, y: int) -> (i: int)
    requires
        held_by(t, nodes, x, y) > 0,
    ensures
        0 <= i < nodes.len(),
        holds(t, nodes[i], x, y),
    decreases nodes.len(),
{
    if holds(t, nodes.last(), x, y) {
        nodes.len() - 1
    } else {
        lemma_holder(t, nodes.drop_last(), x, y)
    }
}

proof fn lemma_held(t: Terrain, nodes: Seq<int>, x: int, y: int, i: int)
    requires
        0 <= i < nodes.len(),
        holds(t, nodes[i], x, y),
    ensures
        held_by(t, nodes, x, y) > 0,
    decreases nodes.len(),
{
    lemma_held_nonneg(t, nodes.drop_last(), x, y);
    if i < nodes.len() - 1 {
        lemma_held(t, nodes.drop_last(), x, y, i);
    }
}

proof fn lemma_held_nonneg(t: Terrain, nodes: Seq<int>, x: int, y: int)
    ensures
        held_by(t, nodes, x, y) >= 0,
    decreases nodes.len(),
{
    if nodes.len() > 0 {
        lemma_held_nonneg(t, nodes.drop_last(), x, y);
    }
}

pub open spec fn terrain_of(layout: SummaryLayout, width: usize, height: usize) -> Terrain {
    Terrain {
        levels: widen(layout.levels@),
        tile_edge: layout.tile_edge as int,
        width: width as int,
        height: height as int,
    }
}

proof fn lemma_same_holders(w: Walk, t: Terrain, nodes: Seq<int>, x: int, y: int)
    requires
        t == terrain_of(w.layout, w.width, w.height),
    ensures
        holders(w, nodes, x, y) == held_by(t, nodes, x, y),
    decreases nodes.len(),
{
    if nodes.len() > 0 {
        lemma_same_holders(w, t, nodes.drop_last(), x, y);
    }
}

/// A parent's state, merged from those of its children, is that of its own rectangle where
/// theirs are those of theirs.
pub proof fn a_parent_sums_up_its_rectangle(
    f: Field,
    layout: SummaryLayout,
    width: usize,
    height: usize,
    flat: bool,
    node: int,
    states: Seq<BandState>,
    s: BandState,
)
    requires
        f.finite(),
        layout.of_grid(width as int, height as int, flat),
        0 <= node < end_of(widen(layout.levels@)),
        level_at(widen(layout.levels@), node) > 0,
        forall|i: int|
            0 <= i < children_of(widen(layout.levels@), node).len() ==> sums_up(
                f,
                terrain_of(layout, width, height),
                #[trigger] children_of(widen(layout.levels@), node)[i],
                states[children_of(widen(layout.levels@), node)[i]],
            ),
        merged(states, widen(layout.levels@), node, s),
    ensures
        sums_up(f, terrain_of(layout, width, height), node, s),
{
    let t = terrain_of(layout, width, height);
    let nodes = children_of(t.levels, node);
    let kids = states_at(states, nodes);
    let n = nodes.len() as int;
    let w: Walk = Walk { layout, width, height, flat, ..arbitrary() };
    assert forall|x: int, y: int| 0 <= x < t.width && 0 <= y < t.height implies #[trigger] held_by(
        t,
        nodes,
        x,
        y,
    ) == (if holds(t, node, x, y) {
        1int
    } else {
        0
    }) by {
        children_hold_what_their_parent_holds(w, node, x, y);
        lemma_same_holders(w, t, nodes, x, y);
    }
    lemma_rows_split(f, t, node, nodes, t.height);
    lemma_counts(f, t, nodes, states);
    assert forall|i: int| 0 <= i < n && (#[trigger] kids[i]).count > 0 implies rank(NEG_INFINITY)
        < rank(kids[i].max) && rank(kids[i].min) < rank(INFINITY) by {
        let child = nodes[i];
        assert(kids[i] == states[child]);
        assert(sums_up(f, t, child, states[child]));
        let (x, y) = choose|x: int, y: int| #[trigger]
            valid_at(f, t, child, x, y) && rank((f.value)(x, y)) == rank(kids[i].max);
        lemma_finite_rank((f.value)(x, y));
        let (a, b) = choose|a: int, b: int| #[trigger]
            valid_at(f, t, child, a, b) && rank((f.value)(a, b)) == rank(kids[i].min);
        lemma_finite_rank((f.value)(a, b));
    }
    if s.count > 0 {
        lemma_parent_extreme(f, t, node, nodes, states, true);
        lemma_parent_extreme(f, t, node, nodes, states, false);
    }
}

proof fn lemma_parent_extreme(
    f: Field,
    t: Terrain,
    node: int,
    nodes: Seq<int>,
    states: Seq<BandState>,
    up: bool,
)
    requires
        forall|x: int, y: int|
            0 <= x < t.width && 0 <= y < t.height ==> #[trigger] held_by(t, nodes, x, y) == (if holds(
                t,
                node,
                x,
                y,
            ) {
                1int
            } else {
                0
            }),
        forall|i: int| 0 <= i < nodes.len() ==> sums_up(f, t, #[trigger] nodes[i], states[nodes[i]]),
        forall|i: int|
            0 <= i < nodes.len() && (#[trigger] states_at(states, nodes)[i]).count > 0 ==> rank(
                NEG_INFINITY,
            ) < rank(states_at(states, nodes)[i].max) && rank(states_at(states, nodes)[i].min) < rank(
                INFINITY,
            ),
        counts_to(states_at(states, nodes), nodes.len() as int) > 0,
    ensures
        extreme(f, t, node, up, child_extreme(up, states_at(states, nodes), nodes.len() as int)),
{
    let kids = states_at(states, nodes);
    let n = nodes.len() as int;
    let r = child_extreme(up, kids, n);
    lemma_extremes(up, kids, n);
    let i = choose|i: int|
        0 <= i < n && (#[trigger] kids[i]).count > 0 && rank(
            if up {
                kids[i].max
            } else {
                kids[i].min
            },
        ) == r;
    let child = nodes[i];
    assert(kids[i] == states[child]);
    assert(sums_up(f, t, child, states[child]));
    assert(extreme(f, t, child, up, r));
    let (x, y) = choose|x: int, y: int| #[trigger]
        valid_at(f, t, child, x, y) && rank((f.value)(x, y)) == r;
    lemma_held(t, nodes, x, y, i);
    assert(held_by(t, nodes, x, y) == 1);
    assert(valid_at(f, t, node, x, y));
    assert forall|x: int, y: int| #[trigger] valid_at(f, t, node, x, y) implies reaches(
        up,
        r,
        rank((f.value)(x, y)),
    ) by {
        assert(held_by(t, nodes, x, y) == 1);
        let j = lemma_holder(t, nodes, x, y);
        let own = nodes[j];
        assert(kids[j] == states[own]);
        assert(sums_up(f, t, own, states[own]));
        assert(valid_at(f, t, own, x, y));
        lemma_some(f, t, own, x, y);
    }
}

/// The cells of a window's part are those of a record's rectangle.
pub open spec fn shows(f: Field, t: Terrain, node: int, values: Seq<u64>, valid: Seq<bool>, p: Part) -> bool {
    let b = box_at(t.levels, t.tile_edge, t.width, t.height, node);
    &&& p.width == b.2 - b.0
    &&& p.height == b.3 - b.1
    &&& forall|row: int, col: int|
        0 <= row < p.height && 0 <= col < p.width ==> {
            &&& valid[#[trigger] place(p, row, col)] == (f.valid)(b.0 + col, b.1 + row)
            &&& values[place(p, row, col)] == (f.value)(b.0 + col, b.1 + row)
        }
}

/// Cells of a row left of the rectangle do not count.
proof fn lemma_row_before(f: Field, t: Terrain, node: int, y: int, n: int)
    requires
        n <= box_at(t.levels, t.tile_edge, t.width, t.height, node).0,
    ensures
        row_valid(f, t, node, y, n) == 0,
    decreases n,
{
    if n > 0 {
        lemma_row_before(f, t, node, y, n - 1);
    }
}

proof fn lemma_row_after(f: Field, t: Terrain, node: int, y: int, m: int, n: int)
    requires
        box_at(t.levels, t.tile_edge, t.width, t.height, node).2 <= m <= n,
    ensures
        row_valid(f, t, node, y, n) == row_valid(f, t, node, y, m) || m < 0,
    decreases n - m,
{
    if m < n {
        lemma_row_after(f, t, node, y, m, n - 1);
    }
}

/// Rows beside the rectangle do not count.
proof fn lemma_row_outside(f: Field, t: Terrain, node: int, y: int, n: int)
    requires
        ({
            let b = box_at(t.levels, t.tile_edge, t.width, t.height, node);
            y < b.1 || b.3 <= y
        }),
    ensures
        row_valid(f, t, node, y, n) == 0,
    decreases n,
{
    if n > 0 {
        lemma_row_outside(f, t, node, y, n - 1);
    }
}

proof fn lemma_rows_before(f: Field, t: Terrain, node: int, n: int)
    requires
        n <= box_at(t.levels, t.tile_edge, t.width, t.height, node).1,
    ensures
        rows_valid(f, t, node, n) == 0,
    decreases n,
{
    if n > 0 {
        lemma_rows_before(f, t, node, n - 1);
        lemma_row_outside(f, t, node, n - 1, t.width);
    }
}

proof fn lemma_rows_after(f: Field, t: Terrain, node: int, m: int, n: int)
    requires
        0 <= m <= n,
        box_at(t.levels, t.tile_edge, t.width, t.height, node).3 <= m,
    ensures
        rows_valid(f, t, node, n) == rows_valid(f, t, node, m),
    decreases n - m,
{
    if m < n {
        lemma_rows_after(f, t, node, m, n - 1);
        lemma_row_outside(f, t, node, n - 1, t.width);
    }
}

/// The valid cells of the first cells of a row of a part.
proof fn lemma_part_row(
    f: Field,
    t: Terrain,
    node: int,
    values: Seq<u64>,
    valid: Seq<bool>,
    p: Part,
    row: int,
    col: int,
)
    requires
        shows(f, t, node, values, valid, p),
        0 <= row < p.height,
        0 <= col <= p.width,
        0 <= box_at(t.levels, t.tile_edge, t.width, t.height, node).0,
    ensures
        ({
            let b = box_at(t.levels, t.tile_edge, t.width, t.height, node);
            valid_to(valid, p, row * p.width + col) == valid_to(valid, p, row * p.width)
                + row_valid(f, t, node, b.1 + row, b.0 + col)
        }),
    decreases col,
{
    let b = box_at(t.levels, t.tile_edge, t.width, t.height, node);
    if col > 0 {
        lemma_part_row(f, t, node, values, valid, p, row, col - 1);
        let i = row * p.width + col - 1;
        crate::index::lemma_row_major(row, col - 1, p.width as int, p.height as int);
        assert(cell_at(p, i) == place(p, row, col - 1));
        assert(valid[place(p, row, col - 1)] == (f.valid)(b.0 + (col - 1), b.1 + row));
        assert(b.0 + (col - 1) == b.0 + col - 1);
        assert(holds(t, node, b.0 + col - 1, b.1 + row));
    } else {
        lemma_row_before(f, t, node, b.1 + row, b.0);
    }
}

proof fn lemma_part_rows(
    f: Field,
    t: Terrain,
    node: int,
    values: Seq<u64>,
    valid: Seq<bool>,
    p: Part,
    row: int,
)
    requires
        shows(f, t, node, values, valid, p),
        0 <= row <= p.height,
        ({
            let b = box_at(t.levels, t.tile_edge, t.width, t.height, node);
            0 <= b.0 < b.2 <= t.width && 0 <= b.1 < b.3 <= t.height
        }),
    ensures
        ({
            let b = box_at(t.levels, t.tile_edge, t.width, t.height, node);
            valid_to(valid, p, row * p.width) == rows_valid(f, t, node, b.1 + row)
        }),
    decreases row,
{
    let b = box_at(t.levels, t.tile_edge, t.width, t.height, node);
    if row > 0 {
        lemma_part_rows(f, t, node, values, valid, p, row - 1);
        lemma_part_row(f, t, node, values, valid, p, row - 1, p.width as int);
        assert((row - 1) * p.width + p.width == row * p.width) by (nonlinear_arith);
        lemma_row_after(f, t, node, b.1 + row - 1, b.2, t.width);
        assert(b.1 + (row - 1) == b.1 + row - 1);
    } else {
        assert(0 * p.width == 0);
        lemma_rows_before(f, t, node, b.1);
    }
}

/// No cell of the first `n` of a part passes their extreme, and one has it where one is valid.
proof fn lemma_part_extreme(up: bool, values: Seq<u64>, valid: Seq<bool>, p: Part, n: int)
    requires
        0 <= n,
        forall|i: int|
            0 <= i < n && valid[#[trigger] cell_at(p, i)] ==> finite_bits(values[cell_at(p, i)]),
    ensures
        forall|i: int|
            0 <= i < n && valid[#[trigger] cell_at(p, i)] ==> reaches(
                up,
                extreme_to(up, values, valid, p, n),
                rank(values[cell_at(p, i)]),
            ),
        valid_to(valid, p, n) >= 0,
        valid_to(valid, p, n) > 0 ==> exists|i: int|
            0 <= i < n && valid[#[trigger] cell_at(p, i)] && rank(values[cell_at(p, i)])
                == extreme_to(up, values, valid, p, n),
        valid_to(valid, p, n) == 0 ==> extreme_to(up, values, valid, p, n) == rank(
            if up {
                NEG_INFINITY
            } else {
                INFINITY
            },
        ),
    decreases n,
{
    if n > 0 {
        lemma_part_extreme(up, values, valid, p, n - 1);
        let at = cell_at(p, n - 1);
        let before = extreme_to(up, values, valid, p, n - 1);
        if valid[at] {
            lemma_finite_rank(values[at]);
        }
        if valid_to(valid, p, n) > 0 {
            if valid[at] && rank(values[at]) == extreme_to(up, values, valid, p, n) {
                assert(valid[cell_at(p, n - 1)]);
            } else {
                let i = choose|i: int|
                    0 <= i < n - 1 && valid[#[trigger] cell_at(p, i)] && rank(values[cell_at(p, i)])
                        == before;
                assert(valid[cell_at(p, i)]);
            }
        }
    }
}

/// A tile's state is that of its rectangle: the count and the extremes of its valid cells.
pub proof fn a_tile_sums_up_its_rectangle(
    f: Field,
    layout: SummaryLayout,
    width: usize,
    height: usize,
    flat: bool,
    node: int,
    values: Seq<u64>,
    valid: Seq<bool>,
    p: Part,
    s: BandState,
)
    requires
        f.finite(),
        layout.of_grid(width as int, height as int, flat),
        0 <= node < end_of(widen(layout.levels@)),
        shows(f, terrain_of(layout, width, height), node, values, valid, p),
        s.count == valid_to(valid, p, p.width * p.height),
        if s.count > 0 {
            rank(s.min) == extreme_to(false, values, valid, p, p.width * p.height) && rank(s.max)
                == extreme_to(true, values, valid, p, p.width * p.height)
        } else {
            s.min == 0 && s.max == 0
        },
    ensures
        sums_up(f, terrain_of(layout, width, height), node, s),
{
    let t = terrain_of(layout, width, height);
    let b = box_at(t.levels, t.tile_edge, t.width, t.height, node);
    lemma_node(t.width, t.height, t.tile_edge, flat, node);
    lemma_part_rows(f, t, node, values, valid, p, p.height as int);
    assert(p.height * p.width == p.width * p.height) by (nonlinear_arith);
    lemma_rows_after(f, t, node, b.3, t.height);
    if s.count > 0 {
        lemma_tile_extreme(f, t, node, values, valid, p, true);
        lemma_tile_extreme(f, t, node, values, valid, p, false);
    }
}

proof fn lemma_tile_extreme(
    f: Field,
    t: Terrain,
    node: int,
    values: Seq<u64>,
    valid: Seq<bool>,
    p: Part,
    up: bool,
)
    requires
        f.finite(),
        shows(f, t, node, values, valid, p),
        valid_to(valid, p, p.width * p.height) > 0,
        ({
            let b = box_at(t.levels, t.tile_edge, t.width, t.height, node);
            0 <= b.0 < b.2 <= t.width && 0 <= b.1 < b.3 <= t.height
        }),
    ensures
        extreme(f, t, node, up, extreme_to(up, values, valid, p, p.width * p.height)),
{
    let b = box_at(t.levels, t.tile_edge, t.width, t.height, node);
    let w = p.width as int;
    let h = p.height as int;
    let n = w * h;
    let r = extreme_to(up, values, valid, p, n);
    assert(w * h == h * w) by (nonlinear_arith);
    assert forall|i: int| 0 <= i < n && valid[#[trigger] cell_at(p, i)] implies finite_bits(
        values[cell_at(p, i)],
    ) by {
        crate::index::lemma_row_of(i, w, h);
        assert(cell_at(p, i) == place(p, i / w, i % w));
        assert((f.valid)(b.0 + i % w, b.1 + i / w));
    }
    assert(n >= 0) by (nonlinear_arith)
        requires
            w >= 0,
            h >= 0,
            n == w * h,
    ;
    lemma_part_extreme(up, values, valid, p, n);
    let i = choose|i: int|
        0 <= i < n && valid[#[trigger] cell_at(p, i)] && rank(values[cell_at(p, i)]) == r;
    crate::index::lemma_row_of(i, w, h);
    assert(cell_at(p, i) == place(p, i / w, i % w));
    assert(valid_at(f, t, node, b.0 + i % w, b.1 + i / w));
    assert forall|x: int, y: int| #[trigger] valid_at(f, t, node, x, y) implies reaches(
        up,
        r,
        rank((f.value)(x, y)),
    ) by {
        let row = y - b.1;
        let col = x - b.0;
        crate::index::lemma_row_major(row, col, w, h);
        let k = row * w + col;
        assert(cell_at(p, k) == place(p, row, col));
        assert(valid[place(p, row, col)] == (f.valid)(b.0 + col, b.1 + row));
    }
}

/// Every record of an index is that of its rectangle: where each tile's state is, and each
/// record above the tiles is merged from its children.
pub proof fn every_record_sums_up_its_rectangle(
    f: Field,
    layout: SummaryLayout,
    width: usize,
    height: usize,
    flat: bool,
    states: Seq<BandState>,
    node: int,
)
    requires
        f.finite(),
        layout.of_grid(width as int, height as int, flat),
        0 <= node < end_of(widen(layout.levels@)),
        forall|k: int|
            0 <= k < end_of(widen(layout.levels@)) && #[trigger] level_at(
                widen(layout.levels@),
                k,
            ) == 0 ==> sums_up(f, terrain_of(layout, width, height), k, states[k]),
        forall|k: int|
            0 <= k < end_of(widen(layout.levels@)) && #[trigger] level_at(
                widen(layout.levels@),
                k,
            ) > 0 ==> merged(states, widen(layout.levels@), k, states[k]),
    ensures
        sums_up(f, terrain_of(layout, width, height), node, states[node]),
    decreases node,
{
    let t = terrain_of(layout, width, height);
    lemma_node(t.width, t.height, t.tile_edge, flat, node);
    if level_at(t.levels, node) > 0 {
        let nodes = children_of(t.levels, node);
        assert forall|i: int| 0 <= i < nodes.len() implies sums_up(
            f,
            t,
            #[trigger] nodes[i],
            states[nodes[i]],
        ) by {
            a_child_is_a_node_below(t.width, t.height, t.tile_edge, flat, node, i);
            every_record_sums_up_its_rectangle(f, layout, width, height, flat, states, nodes[i]);
        }
        a_parent_sums_up_its_rectangle(
            f,
            layout,
            width,
            height,
            flat,
            node,
            states,
            states[node],
        );
    }
}

/// The state of a record above the tiles, from the states of a band in the records before it.
/// `high` and `low` are the merged compensated sum; a flat index has no such record.
pub fn parent_record(
    layout: &SummaryLayout,
    width: usize,
    height: usize,
    node: usize,
    lower: &Vec<BandState>,
    high: u64,
    low: u64,
    flat: bool,
) -> (r: Result<BandState, Error>)
    requires
        layout.of_grid(width as int, height as int, flat),
        node < end_of(widen(layout.levels@)),
        level_at(widen(layout.levels@), node as int) > 0,
        lower@.len() >= node,
    ensures
        ({
            let levels = widen(layout.levels@);
            let children = states_at(lower@, children_of(levels, node as int));
            if counts_to(children, children.len() as int) > u64::MAX {
                r == Err::<BandState, Error>(Error::CountOverflow)
            } else {
                &&& r matches Ok(s)
                &&& s.high == high
                &&& s.low == low
                &&& merged(lower@, levels, node as int, s)
            }
        }),
{
    let ghost levels = widen(layout.levels@);
    let ghost nodes = children_of(levels, node as int);
    let below = match layout.children(width, height, node) {
        Ok(below) => below,
        Err(_) => {
            assert(false);
            Vec::new()
        },
    };
    let mut children: Vec<BandState> = Vec::new();
    let mut i: usize = 0;
    while i < below.len()
        invariant
            i <= below@.len(),
            below@.len() == nodes.len(),
            forall|k: int| 0 <= k < below@.len() ==> #[trigger] below@[k] == nodes[k],
            nodes == children_of(levels, node as int),
            levels == widen(layout.levels@),
            layout.of_grid(width as int, height as int, flat),
            node < end_of(levels),
            level_at(levels, node as int) > 0,
            lower@.len() >= node,
            children@.len() == i,
            forall|k: int| 0 <= k < i ==> #[trigger] children@[k] == lower@[nodes[k]],
        decreases below@.len() - i,
    {
        proof {
            a_child_is_a_node_below(
                width as int,
                height as int,
                layout.tile_edge as int,
                flat,
                node as int,
                i as int,
            );
        }
        children.push(lower[below[i]]);
        i += 1;
    }
    assert(children@ =~= states_at(lower@, nodes));
    parent_state(&children, high, low)
}

} // verus!
