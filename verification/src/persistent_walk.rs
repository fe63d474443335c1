//! The walk of a query over a persistent index: which nodes it asks about, which summaries it
//! takes, and which raw pages it reads.
use vstd::prelude::*;

use crate::error::Error;
use crate::hierarchy::{
    a_child_is_a_node_below, children_divide_their_parent, children_of, node_at, with_node,
};
use crate::layout::{
    a_level_divides_the_grid, box_at, column_at, edge_at, end_of, grid_levels, lemma_node, level_at,
    levels_of, row_at, widen, SummaryLayout,
};

verus! {

/// Where a node lies with respect to the geometry.
#[derive(Clone, Copy, Debug, PartialEq, Eq, Structural)]
pub enum Relation {
    Outside,
    Boundary,
    Inside,
}

/// What the walk does with a node.
#[derive(Clone, Copy, Debug, PartialEq, Eq, Structural)]
pub enum Step {
    /// The node contributes nothing.
    Skip,
    /// Its children are asked about in its place.
    Descend,
    /// Its summary is taken.
    Summary,
    /// Its cells are read.
    Boundary,
}

/// What a node's relation asks for.
pub open spec fn step_of(level: int, relation: Relation, eligible: bool) -> Step {
    if relation == Relation::Outside {
        Step::Skip
    } else if level > 0 && relation == Relation::Boundary {
        Step::Descend
    } else if relation == Relation::Inside && eligible {
        Step::Summary
    } else {
        Step::Boundary
    }
}

/// A node outside the geometry contributes nothing, and no other is skipped. A summary is taken
/// only of a node that lies inside as a whole, and only where summaries answer. Where they do not,
/// every node that touches the geometry gives way to its children or has its cells read.
pub proof fn a_summary_stands_only_for_what_lies_inside(
    level: int,
    relation: Relation,
    eligible: bool,
)
    requires
        level >= 0,
    ensures
        step_of(level, relation, eligible) == Step::Skip <==> relation == Relation::Outside,
        step_of(level, relation, eligible) == Step::Summary <==> relation == Relation::Inside
            && eligible,
        step_of(level, relation, eligible) == Step::Descend <==> relation == Relation::Boundary
            && level > 0,
        step_of(level, relation, eligible) == Step::Boundary ==> relation != Relation::Outside
            && (relation == Relation::Boundary ==> level == 0),
{
}

/// The nodes that are still to be asked about.
pub struct Walk {
    pub layout: SummaryLayout,
    pub width: usize,
    pub height: usize,
    pub flat: bool,
    pub pending: Vec<usize>,
    pub eligible: bool,
}

/// A cell lies in a node.
pub open spec fn in_node(w: Walk, node: int, x: int, y: int) -> bool {
    let b = box_at(w.levels(), w.layout.tile_edge as int, w.width as int, w.height as int, node);
    b.0 <= x < b.2 && b.1 <= y < b.3
}

/// In how many nodes of a list a cell lies.
pub open spec fn holders(w: Walk, nodes: Seq<int>, x: int, y: int) -> int
    decreases nodes.len(),
{
    if nodes.len() == 0 {
        0
    } else {
        holders(w, nodes.drop_last(), x, y) + if in_node(w, nodes.last(), x, y) {
            1int
        } else {
            0
        }
    }
}

pub open spec fn ids(nodes: Seq<usize>) -> Seq<int> {
    nodes.map_values(|n: usize| n as int)
}

impl Walk {
    pub open spec fn levels(&self) -> Seq<(int, int, int)> {
        widen(self.layout.levels@)
    }

    pub open spec fn wf(&self) -> bool {
        &&& self.layout.of_grid(self.width as int, self.height as int, self.flat)
        &&& forall|i: int|
            0 <= i < self.pending@.len() ==> #[trigger] self.pending@[i] < end_of(self.levels())
    }

    /// Two walks over one index.
    pub open spec fn same_index(&self, other: &Walk) -> bool {
        &&& self.layout == other.layout
        &&& self.width == other.width
        &&& self.height == other.height
        &&& self.flat == other.flat
        &&& self.eligible == other.eligible
    }

    /// In how many pending nodes a cell lies.
    pub open spec fn waiting(&self, x: int, y: int) -> int {
        holders(*self, ids(self.pending@), x, y)
    }

    /// A walk from the root of a hierarchy.
    pub fn from_root(layout: SummaryLayout, width: usize, height: usize, flat: bool) -> (r: Walk)
        requires
            layout.of_grid(width as int, height as int, flat),
        ensures
            r.wf(),
            r.layout == layout,
            r.width == width,
            r.height == height,
            r.flat == flat,
            r.eligible,
            r.pending@ == seq![(end_of(widen(layout.levels@)) - 1) as usize],
            forall|x: int, y: int|
                #![trigger r.waiting(x, y)]
                !flat && 0 <= x < width && 0 <= y < height ==> r.waiting(x, y) == 1,
    {
        let n: usize = layout.levels.len();
        proof {
            let w = width as int;
            let h = height as int;
            let e = layout.tile_edge as int;
            crate::model::lemma_ceil_div(w, e);
            crate::model::lemma_ceil_div(h, e);
            crate::layout::lemma_levels(
                crate::model::ceil_div(w, e),
                crate::model::ceil_div(h, e),
                0,
                flat,
            );
            let levels = widen(layout.levels@);
            let top = levels[levels.len() - 1];
            assert(levels.len() == n);
            assert(top == (
                layout.levels@[n - 1].0 as int,
                layout.levels@[n - 1].1 as int,
                layout.levels@[n - 1].2 as int,
            ));
            assert(top.0 * top.1 >= 1) by (nonlinear_arith)
                requires
                    top.0 >= 1,
                    top.1 >= 1,
            ;
        }
        let (x, y, offset) = layout.levels[n - 1];
        let last: usize = offset + x * y - 1;
        let mut pending: Vec<usize> = Vec::new();
        pending.push(last);
        assert(pending@ =~= seq![last]);
        let walk = Walk { layout, width, height, flat, pending, eligible: true };
        proof {
            assert forall|x: int, y: int|
                #![trigger walk.waiting(x, y)]
                !flat && 0 <= x < width && 0 <= y < height implies walk.waiting(x, y) == 1 by {
                the_root_holds_the_grid(walk, x, y);
                assert(ids(walk.pending@) =~= seq![last as int]);
                assert(seq![last as int].drop_last() =~= Seq::<int>::empty());
                assert(seq![last as int].last() == last);
                assert(holders(walk, Seq::<int>::empty(), x, y) == 0);
            }
        }
        walk
    }

    /// The next node to ask about.
    pub fn next(&mut self) -> (r: Option<usize>)
        requires
            old(self).wf(),
        ensures
            final(self).wf(),
            final(self).same_index(old(self)),
            match r {
                None => old(self).pending@.len() == 0 && final(self).pending@ == old(self).pending@,
                Some(node) => {
                    &&& old(self).pending@.len() > 0
                    &&& node == old(self).pending@.last()
                    &&& final(self).pending@ == old(self).pending@.drop_last()
                    &&& node < end_of(final(self).levels())
                },
            },
            forall|x: int, y: int|
                #![trigger old(self).waiting(x, y)]
                old(self).waiting(x, y) == final(self).waiting(x, y) + (if r is Some && in_node(
                    *final(self),
                    r->0 as int,
                    x,
                    y,
                ) {
                    1int
                } else {
                    0
                }),
    {
        let r = self.pending.pop();
        proof {
            if let Some(node) = r {
                assert forall|x: int, y: int|
                    #![trigger old(self).waiting(x, y)]
                    old(self).waiting(x, y) == self.waiting(x, y) + (if in_node(
                        *self,
                        node as int,
                        x,
                        y,
                    ) {
                        1int
                    } else {
                        0
                    }) by {
                    assert(ids(old(self).pending@).drop_last() =~= ids(self.pending@));
                    lemma_same_walk(*old(self), *self, ids(self.pending@), x, y);
                }
            } else {
                assert forall|x: int, y: int|
                    #![trigger old(self).waiting(x, y)]
                    old(self).waiting(x, y) == self.waiting(x, y) by {
                    lemma_same_walk(*old(self), *self, ids(self.pending@), x, y);
                }
            }
        }
        r
    }

    /// Take the relation of a node. A node that the boundary crosses gives way to its children,
    /// which hold just its cells, each in one of them.
    pub fn decide(&mut self, node: usize, relation: Relation) -> (r: Step)
        requires
            old(self).wf(),
            node < end_of(old(self).levels()),
        ensures
            final(self).wf(),
            final(self).same_index(old(self)),
            r == step_of(level_at(old(self).levels(), node as int), relation, old(self).eligible),
            r != Step::Descend ==> final(self).pending@ == old(self).pending@,
            r == Step::Descend ==> ids(final(self).pending@) == ids(old(self).pending@)
                + children_of(old(self).levels(), node as int).reverse(),
            forall|x: int, y: int|
                #![trigger final(self).waiting(x, y)]
                0 <= x < old(self).width && 0 <= y < old(self).height ==> final(self).waiting(x, y)
                    == old(self).waiting(x, y) + (if r == Step::Descend && in_node(
                    *old(self),
                    node as int,
                    x,
                    y,
                ) {
                    1int
                } else {
                    0
                }),
    {
        let level: usize = self.layout.level(node);
        let step = match relation {
            Relation::Outside => Step::Skip,
            Relation::Boundary => if level > 0 {
                Step::Descend
            } else {
                Step::Boundary
            },
            Relation::Inside => if self.eligible {
                Step::Summary
            } else {
                Step::Boundary
            },
        };
        match step {
            Step::Descend => {},
            _ => {
                return step;
            },
        }
        let ghost levels = self.levels();
        let ghost w = self.width as int;
        let ghost h = self.height as int;
        let ghost e = self.layout.tile_edge as int;
        let ghost all = children_of(levels, node as int);
        let ghost before = self.pending@;
        let children = match self.layout.children(self.width, self.height, node) {
            Ok(children) => children,
            Err(_) => {
                assert(false);
                Vec::new()
            },
        };
        assert(ids(children@) =~= all);
        let mut i: usize = children.len();
        assert(ids(self.pending@) =~= ids(before) + all.skip(i as int).reverse());
        while i > 0
            invariant
                i <= children@.len(),
                ids(children@) == all,
                all == children_of(levels, node as int),
                levels == self.levels(),
                self.same_index(old(self)),
                old(self).wf(),
                self.width == w,
                self.height == h,
                self.layout.tile_edge == e,
                node < end_of(levels),
                level_at(levels, node as int) > 0,
                levels == grid_levels(w, h, e, self.flat),
                w >= 1,
                h >= 1,
                e >= 1,
                before == old(self).pending@,
                self.layout.of_grid(w, h, self.flat),
                ids(self.pending@) == ids(before) + all.skip(i as int).reverse(),
                forall|k: int|
                    0 <= k < self.pending@.len() ==> #[trigger] self.pending@[k] < end_of(levels),
            decreases i,
        {
            i -= 1;
            let ghost held = self.pending@;
            proof {
                assert(ids(children@)[i as int] == children@[i as int]);
                a_child_is_a_node_below(w, h, e, self.flat, node as int, i as int);
            }
            self.pending.push(children[i]);
            proof {
                assert(all.skip(i as int) =~= seq![all[i as int]] + all.skip(i + 1));
                assert(all.skip(i as int).reverse() =~= all.skip(i + 1).reverse().push(
                    all[i as int],
                ));
                assert(ids(self.pending@) =~= ids(held).push(all[i as int]));
                assert(ids(self.pending@) =~= ids(before) + all.skip(i as int).reverse());
            }
        }
        proof {
            assert(all.skip(0) =~= all);
            assert forall|x: int, y: int|
                #![trigger self.waiting(x, y)]
                0 <= x < w && 0 <= y < h implies self.waiting(x, y) == old(self).waiting(x, y) + (
            if in_node(*old(self), node as int, x, y) {
                1int
            } else {
                0
            }) by {
                lemma_holders_join(*self, ids(before), all.reverse(), x, y);
                lemma_same_walk(*old(self), *self, ids(before), x, y);
                children_hold_what_their_parent_holds(*self, node as int, x, y);
                lemma_holders_reverse(*self, all, x, y);
            }
        }
        step
    }
}

proof fn lemma_top_level(x: int, y: int, offset: int)
    requires
        x >= 1,
        y >= 1,
    ensures
        levels_of(x, y, offset, false).len() > 0,
        levels_of(x, y, offset, false).last().0 == 1,
        levels_of(x, y, offset, false).last().1 == 1,
    decreases x + y,
{
    if !(x <= 1 && y <= 1) {
        crate::model::lemma_ceil_div(x, 2);
        crate::model::lemma_ceil_div(y, 2);
        let rest = levels_of(
            crate::model::ceil_div(x, 2),
            crate::model::ceil_div(y, 2),
            offset + x * y,
            false,
        );
        lemma_top_level(crate::model::ceil_div(x, 2), crate::model::ceil_div(y, 2), offset + x * y);
        assert(levels_of(x, y, offset, false).last() == rest.last());
    }
}

/// The root of a hierarchy holds every cell of the grid.
pub proof fn the_root_holds_the_grid(w: Walk, x: int, y: int)
    requires
        w.layout.of_grid(w.width as int, w.height as int, false),
        !w.flat,
        0 <= x < w.width,
        0 <= y < w.height,
    ensures
        in_node(w, end_of(w.levels()) - 1, x, y),
{
    let levels = w.levels();
    let ww = w.width as int;
    let hh = w.height as int;
    let e = w.layout.tile_edge as int;
    crate::model::lemma_ceil_div(ww, e);
    crate::model::lemma_ceil_div(hh, e);
    let tx = crate::model::ceil_div(ww, e);
    let ty = crate::model::ceil_div(hh, e);
    lemma_top_level(tx, ty, 0);
    crate::layout::lemma_levels(tx, ty, 0, false);
    let k = levels.len() - 1;
    let home = crate::hierarchy::lemma_home(ww, hh, e, false, k, x, y);
    assert(levels[k] == levels.last());
    assert(1 * 1 == 1);
    let edge = edge_at(e, k);
    crate::layout::lemma_level_counts(ww, hh, e, false, k);
    vstd::arithmetic::div_mod::lemma_div_pos_is_pos(x, edge);
    vstd::arithmetic::div_mod::lemma_div_pos_is_pos(y, edge);
    assert(y / edge * 1 == y / edge);
    assert(home == end_of(levels) - 1);
    a_level_divides_the_grid(ww, hh, e, false, k, x, y, home);
}

pub proof fn lemma_same_walk(a: Walk, b: Walk, nodes: Seq<int>, x: int, y: int)
    requires
        a.same_index(&b),
    ensures
        holders(a, nodes, x, y) == holders(b, nodes, x, y),
    decreases nodes.len(),
{
    if nodes.len() > 0 {
        lemma_same_walk(a, b, nodes.drop_last(), x, y);
    }
}

pub proof fn lemma_holders_join(w: Walk, a: Seq<int>, b: Seq<int>, x: int, y: int)
    ensures
        holders(w, a + b, x, y) == holders(w, a, x, y) + holders(w, b, x, y),
    decreases b.len(),
{
    if b.len() == 0 {
        assert(a + b =~= a);
    } else {
        assert((a + b).drop_last() =~= a + b.drop_last());
        lemma_holders_join(w, a, b.drop_last(), x, y);
    }
}

proof fn lemma_holders_reverse(w: Walk, a: Seq<int>, x: int, y: int)
    ensures
        holders(w, a.reverse(), x, y) == holders(w, a, x, y),
    decreases a.len(),
{
    if a.len() > 0 {
        let front = a.drop_last();
        lemma_holders_reverse(w, front, x, y);
        assert(a.reverse() =~= seq![a.last()] + front.reverse());
        lemma_holders_join(w, seq![a.last()], front.reverse(), x, y);
        assert(seq![a.last()].drop_last() =~= Seq::<int>::empty());
        assert(seq![a.last()].last() == a.last());
        assert(holders(w, Seq::<int>::empty(), x, y) == 0);
    } else {
        assert(a.reverse() =~= a);
    }
}

/// In a list of nodes of one level without repetition, only the node of a cell holds it.
proof fn lemma_one_holder(w: Walk, nodes: Seq<int>, k: int, x: int, y: int, home: int)
    requires
        w.layout.of_grid(w.width as int, w.height as int, w.flat),
        0 <= x < w.width,
        0 <= y < w.height,
        0 <= k < w.levels().len(),
        home == w.levels()[k].2 + y / edge_at(w.layout.tile_edge as int, k) * w.levels()[k].0 + x
            / edge_at(w.layout.tile_edge as int, k),
        nodes.no_duplicates(),
        forall|i: int|
            0 <= i < nodes.len() ==> 0 <= #[trigger] nodes[i] < end_of(w.levels()) && level_at(
                w.levels(),
                nodes[i],
            ) == k,
    ensures
        holders(w, nodes, x, y) == (if nodes.contains(home) {
            1int
        } else {
            0
        }),
    decreases nodes.len(),
{
    if nodes.len() > 0 {
        let front = nodes.drop_last();
        let last = nodes.last();
        assert(last == nodes[nodes.len() - 1]);
        lemma_one_holder(w, front, k, x, y, home);
        a_level_divides_the_grid(
            w.width as int,
            w.height as int,
            w.layout.tile_edge as int,
            w.flat,
            k,
            x,
            y,
            last,
        );
        if last == home {
            if front.contains(home) {
                let i = front.index_of(home);
                assert(nodes[i] == home);
            }
        } else if nodes.contains(home) {
            let i = nodes.index_of(home);
            assert(front[i] == home);
        } else if front.contains(home) {
            let i = front.index_of(home);
            assert(nodes[i] == home);
        }
    }
}

proof fn lemma_children_differ(w: Walk, node: int)
    requires
        w.layout.of_grid(w.width as int, w.height as int, w.flat),
        0 <= node < end_of(w.levels()),
        level_at(w.levels(), node) > 0,
    ensures
        children_of(w.levels(), node).no_duplicates(),
{
    let levels = w.levels();
    let below = levels[level_at(levels, node) - 1];
    let x = 2 * column_at(levels, node);
    let y = 2 * row_at(levels, node);
    let n = below.0;
    assert((y + 1) * n == y * n + n) by (nonlinear_arith);
    let a = with_node(Seq::empty(), node_at(below, x, y));
    let b = with_node(a, node_at(below, x + 1, y));
    let c = with_node(b, node_at(below, x, y + 1));
    let d = with_node(c, node_at(below, x + 1, y + 1));
    crate::layout::lemma_node(
        w.width as int,
        w.height as int,
        w.layout.tile_edge as int,
        w.flat,
        node,
    );
    assert(d.no_duplicates());
}

/// The children of a node hold just the cells that it holds, each in one of them.
pub proof fn children_hold_what_their_parent_holds(w: Walk, node: int, x: int, y: int)
    requires
        w.layout.of_grid(w.width as int, w.height as int, w.flat),
        0 <= node < end_of(w.levels()),
        level_at(w.levels(), node) > 0,
        0 <= x < w.width,
        0 <= y < w.height,
    ensures
        holders(w, children_of(w.levels(), node), x, y) == (if in_node(w, node, x, y) {
            1int
        } else {
            0
        }),
{
    let levels = w.levels();
    let ww = w.width as int;
    let hh = w.height as int;
    let e = w.layout.tile_edge as int;
    let k = level_at(levels, node) - 1;
    let all = children_of(levels, node);
    lemma_node(ww, hh, e, w.flat, node);
    assert forall|i: int| 0 <= i < all.len() implies 0 <= #[trigger] all[i] < end_of(levels)
        && level_at(levels, all[i]) == k by {
        a_child_is_a_node_below(ww, hh, e, w.flat, node, i);
    }
    lemma_children_differ(w, node);
    let home = crate::hierarchy::lemma_home(ww, hh, e, w.flat, k, x, y);
    lemma_one_holder(w, all, k, x, y, home);
    a_level_divides_the_grid(ww, hh, e, w.flat, k, x, y, home);
    children_divide_their_parent(ww, hh, e, w.flat, node, home, x, y);
}

/// The tiles of a window, row by row.
#[derive(Clone, Copy, Debug, PartialEq, Eq, Structural)]
pub struct FlatTiles {
    pub left: usize,
    pub top: usize,
    pub right: usize,
    pub bottom: usize,
    /// Tiles in a row of the index.
    pub across: usize,
    pub x: usize,
    pub y: usize,
}

impl FlatTiles {
    pub open spec fn wf(self) -> bool {
        &&& self.left <= self.right <= self.across
        &&& self.top <= self.bottom
        &&& self.bottom * self.across <= usize::MAX
        &&& self.left <= self.x <= self.right
        &&& self.top <= self.y <= self.bottom
        &&& self.x == self.right ==> self.left == self.right || self.y == self.bottom
        &&& self.y == self.bottom ==> self.x == self.left || self.left == self.right
    }

    /// The tiles that are still to come.
    pub open spec fn left_over(self) -> int {
        (self.bottom - self.y) * (self.right - self.left) - (self.x - self.left)
    }

    pub fn new(left: usize, top: usize, right: usize, bottom: usize, across: usize) -> (r: FlatTiles)
        requires
            left <= right <= across,
            top <= bottom,
            bottom * across <= usize::MAX,
        ensures
            r.wf(),
            r == (FlatTiles { left, top, right, bottom, across, x: left, y: top }),
    {
        FlatTiles { left, top, right, bottom, across, x: left, y: top }
    }

    /// The next tile: the one to the right, or the first of the next row.
    pub fn next(&mut self) -> (r: Option<usize>)
        requires
            old(self).wf(),
        ensures
            final(self).wf(),
            match r {
                None => *final(self) == *old(self) && (old(self).left == old(self).right
                    || old(self).y == old(self).bottom),
                Some(tile) => {
                    &&& old(self).x < old(self).right
                    &&& old(self).y < old(self).bottom
                    &&& tile == old(self).y * old(self).across + old(self).x
                    &&& *final(self) == (if old(self).x + 1 < old(self).right {
                        FlatTiles { x: (old(self).x + 1) as usize, ..*old(self) }
                    } else {
                        FlatTiles {
                            x: old(self).left,
                            y: (old(self).y + 1) as usize,
                            ..*old(self)
                        }
                    })
                    &&& final(self).left_over() == old(self).left_over() - 1
                },
            },
    {
        if self.left == self.right || self.y == self.bottom {
            return None;
        }
        proof {
            let y = self.y as int;
            let b = self.bottom as int;
            let a = self.across as int;
            assert((y + 1) * a <= b * a) by (nonlinear_arith)
                requires
                    y + 1 <= b,
                    a >= 0,
            ;
            assert((y + 1) * a == y * a + a) by (nonlinear_arith);
            assert(y * a >= 0) by (nonlinear_arith)
                requires
                    y >= 0,
                    a >= 0,
            ;
            let w = self.right - self.left;
            assert((b - y) * w == (b - y - 1) * w + w) by (nonlinear_arith);
        }
        let tile: usize = self.y * self.across + self.x;
        if self.x + 1 < self.right {
            self.x = self.x + 1;
        } else {
            self.x = self.left;
            self.y = self.y + 1;
        }
        Some(tile)
    }
}

/// `slice::sort_unstable` on record numbers: the same numbers, in rising order.
#[verifier::external_body]
fn sort_records(records: &mut Vec<usize>)
    ensures
        final(records)@.to_multiset() == old(records)@.to_multiset(),
        forall|i: int, j: int|
            0 <= i < j < final(records)@.len() ==> final(records)@[i] <= final(records)@[j],
{
    records.sort_unstable();
}

/// Summaries that are taken in the order of the file once the walk has ended. Geometry is
/// immutable; no full-resolution coverage plan or raw interior read is added.
pub struct Schedule {
    pub records: Vec<usize>,
    pub limit: usize,
}

impl Schedule {
    pub fn new(limit: usize) -> (r: Schedule)
        ensures
            r.records@ == Seq::<usize>::empty(),
            r.limit == limit,
    {
        Schedule { records: Vec::new(), limit }
    }

    /// Put a summary off.
    pub fn add(&mut self, record: usize) -> (r: Result<(), Error>)
        ensures
            final(self).limit == old(self).limit,
            if old(self).records@.len() < old(self).limit {
                r is Ok && final(self).records@ == old(self).records@.push(record)
            } else {
                r == Err::<(), Error>(Error::ScheduleCapacity) && final(self).records@
                    == old(self).records@
            },
    {
        if self.records.len() < self.limit {
            self.records.push(record);
            Ok(())
        } else {
            Err(Error::ScheduleCapacity)
        }
    }

    /// The summaries that were put off, in the order of the file.
    pub fn in_file_order(self) -> (r: Vec<usize>)
        ensures
            r@.to_multiset() == self.records@.to_multiset(),
            forall|i: int, j: int| 0 <= i < j < r@.len() ==> r@[i] <= r@[j],
    {
        let mut records = self.records;
        sort_records(&mut records);
        records
    }
}

/// One bounded read-ahead page of summaries, owned by a query. Record checksums remain per tile;
/// raw pixel blocks are never speculatively fetched.
pub struct SummaryCache {
    pub first: usize,
    pub count: usize,
    pub hits: usize,
    /// Planned ranges, the last one first; the cache reads them in the order of the file.
    pub ranges: Vec<(usize, usize)>,
}

impl SummaryCache {
    /// The page in the cache holds a record.
    pub open spec fn holds(&self, record: int) -> bool {
        self.first <= record < self.first + self.count
    }

    pub fn new(ranges: Vec<(usize, usize)>) -> (r: SummaryCache)
        ensures
            r.first == 0,
            r.count == 0,
            r.hits == 0,
            r.ranges@ == ranges@,
    {
        SummaryCache { first: 0, count: 0, hits: 0, ranges }
    }

    /// Make the cache hold a record: nothing to read where it does, else the range to read, of
    /// up to `per_page` records around it, or the next planned one.
    pub fn locate(&mut self, record: usize, records: usize, per_page: usize, draining: bool) -> (r:
        Result<Option<(usize, usize)>, Error>)
        requires
            record < records,
            per_page >= 1,
            old(self).first + old(self).count <= usize::MAX,
            old(self).hits < usize::MAX,
            forall|i: int|
                0 <= i < old(self).ranges@.len() ==> (#[trigger] old(self).ranges@[i]).1 >= 1
                    && old(self).ranges@[i].0 + old(self).ranges@[i].1 <= usize::MAX,
        ensures
            final(self).first + final(self).count <= usize::MAX,
            r is Ok ==> final(self).holds(record as int),
            if old(self).holds(record as int) {
                &&& r == Ok::<Option<(usize, usize)>, Error>(None)
                &&& final(self).hits == old(self).hits + 1
                &&& final(self).first == old(self).first
                &&& final(self).count == old(self).count
                &&& final(self).ranges@ == old(self).ranges@
            } else if !draining {
                let first = record as int / per_page as int * per_page;
                let left = records - first;
                &&& final(self).hits == old(self).hits
                &&& final(self).ranges@ == old(self).ranges@
                &&& final(self).first == first
                &&& final(self).count == (if per_page < left {
                    per_page as int
                } else {
                    left
                })
                &&& r == Ok::<Option<(usize, usize)>, Error>(
                    Some((final(self).first, final(self).count)),
                )
            } else if old(self).ranges@.len() == 0 {
                r == Err::<Option<(usize, usize)>, Error>(Error::MissingRange)
            } else if old(self).ranges@.last().0 != record {
                r == Err::<Option<(usize, usize)>, Error>(Error::RangeAlignment)
            } else {
                &&& final(self).hits == old(self).hits
                &&& final(self).ranges@ == old(self).ranges@.drop_last()
                &&& final(self).first == old(self).ranges@.last().0
                &&& final(self).count == old(self).ranges@.last().1
                &&& r == Ok::<Option<(usize, usize)>, Error>(Some(old(self).ranges@.last()))
            },
    {
        if self.first <= record && record < self.first + self.count {
            self.hits = self.hits + 1;
            return Ok(None);
        }
        if draining {
            let n: usize = self.ranges.len();
            if n == 0 {
                return Err(Error::MissingRange);
            }
            let (first, count) = self.ranges[n - 1];
            if first != record {
                return Err(Error::RangeAlignment);
            }
            let popped = self.ranges.pop();
            assert(popped == Some((first, count)));
            self.first = first;
            self.count = count;
            return Ok(Some((first, count)));
        }
        proof {
            vstd::arithmetic::div_mod::lemma_fundamental_div_mod(record as int, per_page as int);
            let q = record as int / per_page as int;
            let p = per_page as int;
            assert(p * q == q * p) by (nonlinear_arith);
            assert(q * p >= 0) by (nonlinear_arith)
                requires
                    q >= 0,
                    p >= 0,
            ;
        }
        let first: usize = record / per_page * per_page;
        let left: usize = records - first;
        let count: usize = if per_page < left {
            per_page
        } else {
            left
        };
        self.first = first;
        self.count = count;
        Ok(Some((first, count)))
    }
}

/// A group holds one of the bands.
pub open spec fn touched(bands: Seq<usize>, band_group: int, g: int) -> bool {
    exists|i: int| 0 <= i < bands.len() && #[trigger] bands[i] as int / band_group == g
}

/// Groups in rising order, without repetition.
pub open spec fn rising(groups: Seq<usize>) -> bool {
    forall|i: int, j: int| 0 <= i < j < groups.len() ==> groups[i] < groups[j]
}

/// The groups that bands lie in, in rising order.
pub fn touched_groups(bands: &Vec<usize>, band_group: usize, groups: usize) -> (r: Vec<usize>)
    requires
        band_group >= 1,
    ensures
        rising(r@),
        forall|g: usize| r@.contains(g) <==> (g < groups && touched(bands@, band_group as int, g as int)),
{
    let mut out: Vec<usize> = Vec::new();
    let mut g: usize = 0;
    while g < groups
        invariant
            band_group >= 1,
            g <= groups,
            rising(out@),
            forall|i: int| 0 <= i < out@.len() ==> #[trigger] out@[i] < g,
            forall|k: usize|
                out@.contains(k) <==> (k < g && touched(bands@, band_group as int, k as int)),
        decreases groups - g,
    {
        let mut found = false;
        let mut i: usize = 0;
        while i < bands.len()
            invariant
                band_group >= 1,
                i <= bands@.len(),
                found == exists|k: int|
                    0 <= k < i && #[trigger] bands@[k] as int / band_group as int == g as int,
            decreases bands.len() - i,
        {
            if bands[i] / band_group == g {
                found = true;
            }
            i += 1;
        }
        let ghost before = out@;
        if found {
            out.push(g);
            proof {
                assert(touched(bands@, band_group as int, g as int));
                assert forall|k: usize|
                    out@.contains(k) <==> (k < g + 1 && touched(
                        bands@,
                        band_group as int,
                        k as int,
                    )) by {
                    assert(out@[before.len() as int] == g);
                    if k == g {
                        assert(out@.contains(k));
                    } else {
                        if out@.contains(k) {
                            let at = out@.index_of(k);
                            assert(0 <= at < out@.len() && out@[at] == k);
                            assert(at < before.len());
                            assert(before[at] == k);
                            assert(before.contains(k));
                        }
                        if before.contains(k) {
                            let at = before.index_of(k);
                            assert(0 <= at < before.len() && before[at] == k);
                            assert(out@[at] == k);
                            assert(out@.contains(k));
                        }
                        assert(before.contains(k) <==> (k < g && touched(
                            bands@,
                            band_group as int,
                            k as int,
                        )));
                    }
                }
            }
        }
        g += 1;
    }
    out
}

/// Where a run of consecutive groups ends: after `max`, or before a gap.
pub open spec fn run_end(groups: Seq<usize>, at: int, end: int, max: int) -> int
    decreases groups.len() - end,
{
    if end < groups.len() && end - at < max && groups[end] == groups[end - 1] + 1 {
        run_end(groups, at, end + 1, max)
    } else {
        end
    }
}

/// The runs of groups from `at` on: the first group of each, and how many.
pub open spec fn runs_from(groups: Seq<usize>, at: int, max: int) -> Seq<(usize, usize)>
    decreases groups.len() - at,
{
    if at < 0 || at >= groups.len() || !(at < run_end(groups, at, at + 1, max) <= groups.len()) {
        Seq::empty()
    } else {
        let end = run_end(groups, at, at + 1, max);
        seq![(groups[at], (end - at) as usize)] + runs_from(groups, end, max)
    }
}

proof fn lemma_run(groups: Seq<usize>, at: int, end: int, max: int)
    requires
        0 <= at < end <= groups.len(),
        max >= 1,
        end - at <= max,
    ensures
        end <= run_end(groups, at, end, max) <= groups.len(),
        run_end(groups, at, end, max) - at <= max,
        forall|k: int|
            end <= k < run_end(groups, at, end, max) ==> #[trigger] groups[k] == groups[end - 1] + (k
                - (end - 1)),
    decreases groups.len() - end,
{
    if end < groups.len() && end - at < max && groups[end] == groups[end - 1] + 1 {
        lemma_run(groups, at, end + 1, max);
        assert forall|k: int|
            end <= k < run_end(groups, at, end, max) implies #[trigger] groups[k] == groups[end - 1]
            + (k - (end - 1)) by {
            if k > end {
                assert(groups[k] == groups[end] + (k - end));
            }
        }
    }
}

/// The reads that take `groups` of a tile: runs of consecutive groups of at most `max` each.
pub fn group_runs(groups: &Vec<usize>, max: usize) -> (r: Vec<(usize, usize)>)
    requires
        max >= 1,
        forall|i: int| 0 <= i < groups@.len() ==> #[trigger] groups@[i] < usize::MAX,
    ensures
        r@ == runs_from(groups@, 0, max as int),
{
    let n: usize = groups.len();
    let mut out: Vec<(usize, usize)> = Vec::new();
    let mut at: usize = 0;
    let ghost all = runs_from(groups@, 0, max as int);
    assert(Seq::<(usize, usize)>::empty() + all =~= all);
    while at < n
        invariant
            n == groups@.len(),
            max >= 1,
            at <= n,
            forall|i: int| 0 <= i < groups@.len() ==> #[trigger] groups@[i] < usize::MAX,
            out@ + runs_from(groups@, at as int, max as int) == all,
        decreases n - at,
    {
        let mut end: usize = at + 1;
        while end < n && end - at < max && groups[end] == groups[end - 1] + 1
            invariant
                n == groups@.len(),
                at < end <= n,
                end - at <= max,
                max >= 1,
                forall|i: int| 0 <= i < groups@.len() ==> #[trigger] groups@[i] < usize::MAX,
                run_end(groups@, at as int, at + 1, max as int) == run_end(
                    groups@,
                    at as int,
                    end as int,
                    max as int,
                ),
            decreases n - end,
        {
            end += 1;
        }
        let ghost before = out@;
        out.push((groups[at], end - at));
        proof {
            lemma_run(groups@, at as int, at + 1, max as int);
            let rest = runs_from(groups@, end as int, max as int);
            assert(before + (seq![(groups@[at as int], (end - at) as usize)] + rest) =~= out@
                + rest);
        }
        at = end;
    }
    assert(out@ =~= all);
    out
}

/// A group lies in a run.
pub open spec fn in_run(run: (usize, usize), group: int) -> bool {
    run.0 <= group < run.0 + run.1
}

/// Each group lies in one of the runs, and no run holds more than `max` groups or any other group.
pub proof fn runs_take_every_group(groups: Seq<usize>, at: int, max: int, k: int)
    requires
        rising(groups),
        0 <= at <= k < groups.len(),
        1 <= max <= usize::MAX,
        groups.len() <= usize::MAX,
    ensures
        exists|i: int|
            0 <= i < runs_from(groups, at, max).len() && #[trigger] in_run(
                runs_from(groups, at, max)[i],
                groups[k] as int,
            ),
        runs_from(groups, at, max)[0].0 == groups[at],
        1 <= runs_from(groups, at, max)[0].1 <= max,
        forall|g: int|
            #[trigger] in_run(runs_from(groups, at, max)[0], g) ==> exists|j: int|
                at <= j < groups.len() && groups[j] == g,
    decreases groups.len() - at,
{
    lemma_run(groups, at, at + 1, max);
    let end = run_end(groups, at, at + 1, max);
    let runs = runs_from(groups, at, max);
    let rest = runs_from(groups, end, max);
    assert(runs =~= seq![(groups[at], (end - at) as usize)] + rest);
    assert forall|j: int| at <= j < end implies #[trigger] groups[j] == groups[at] + (j - at) by {
        if j > at {
            assert(groups[j] == groups[at + 1 - 1] + (j - (at + 1 - 1)));
        }
    }
    if k < end {
        assert(groups[k] == groups[at] + (k - at));
        assert(in_run(runs[0], groups[k] as int));
    } else {
        runs_take_every_group(groups, end, max, k);
        let i = choose|i: int| 0 <= i < rest.len() && #[trigger] in_run(rest[i], groups[k] as int);
        assert(runs[i + 1] == rest[i]);
        assert(in_run(runs[i + 1], groups[k] as int));
    }
    assert forall|g: int| #[trigger] in_run(runs[0], g) implies exists|j: int|
        at <= j < groups.len() && groups[j] == g by {
        let j = at + (g - groups[at]);
        assert(groups[j] == g);
    }
}

} // verus!
