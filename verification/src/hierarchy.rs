//! The children of a node: the up to four nodes of the level below that cover its cells.
use vstd::prelude::*;

use crate::error::Error;
use crate::index::{lemma_distinct, lemma_row_major};
use crate::layout::{
    box_at, column_at, edge_at, end_of, grid_levels, lemma_level_at,
    lemma_level_counts, lemma_levels, lemma_node, level_at, row_at, widen, Level, SummaryLayout,
};
use crate::model::{ceil_div, lemma_ceil_div};

verus! {

/// The node of a level at a column and row, where the level has one.
pub open spec fn node_at(level: (int, int, int), x: int, y: int) -> Option<int> {
    if x < level.0 && y < level.1 {
        Some(level.2 + y * level.0 + x)
    } else {
        None
    }
}

pub open spec fn with_node(nodes: Seq<int>, node: Option<int>) -> Seq<int> {
    match node {
        Some(node) => nodes.push(node),
        None => nodes,
    }
}

/// The children of a node above the lowest level, row by row.
pub open spec fn children_of(levels: Seq<(int, int, int)>, node: int) -> Seq<int> {
    let below = levels[level_at(levels, node) - 1];
    let x = 2 * column_at(levels, node);
    let y = 2 * row_at(levels, node);
    let a = with_node(Seq::empty(), node_at(below, x, y));
    let b = with_node(a, node_at(below, x + 1, y));
    let c = with_node(b, node_at(below, x, y + 1));
    with_node(c, node_at(below, x + 1, y + 1))
}

/// Two children stand side by side: the corners of a node are those of its first child.
proof fn lemma_parent(width: int, height: int, tile_edge: int, flat: bool, node: int)
    requires
        width >= 1,
        height >= 1,
        tile_edge >= 1,
        0 <= node < end_of(grid_levels(width, height, tile_edge, flat)),
        level_at(grid_levels(width, height, tile_edge, flat), node) > 0,
    ensures
        ({
            let levels = grid_levels(width, height, tile_edge, flat);
            let k = level_at(levels, node);
            &&& 0 < k < levels.len()
            &&& edge_at(tile_edge, k) == 2 * edge_at(tile_edge, k - 1)
            &&& edge_at(tile_edge, k - 1) >= 1
            &&& levels[k].0 == ceil_div(levels[k - 1].0, 2)
            &&& levels[k].1 == ceil_div(levels[k - 1].1, 2)
            &&& levels[k].2 == levels[k - 1].2 + levels[k - 1].0 * levels[k - 1].1
            &&& levels[k - 1].0 >= 1
            &&& levels[k - 1].1 >= 1
            &&& levels[k - 1].2 >= 0
            &&& 2 * column_at(levels, node) < levels[k - 1].0
            &&& 2 * row_at(levels, node) < levels[k - 1].1
            &&& column_at(levels, node) >= 0
            &&& row_at(levels, node) >= 0
        }),
{
    let levels = grid_levels(width, height, tile_edge, flat);
    let k = level_at(levels, node);
    lemma_ceil_div(width, tile_edge);
    lemma_ceil_div(height, tile_edge);
    lemma_levels(ceil_div(width, tile_edge), ceil_div(height, tile_edge), 0, flat);
    lemma_node(width, height, tile_edge, flat, node);
    lemma_level_counts(width, height, tile_edge, flat, k);
    lemma_level_counts(width, height, tile_edge, flat, k - 1);
    let below = levels[k - 1];
    assert(levels[k] == (ceil_div(below.0, 2), ceil_div(below.1, 2), below.2 + below.0 * below.1));
    lemma_ceil_div(below.0, 2);
    lemma_ceil_div(below.1, 2);
    let x = column_at(levels, node);
    let y = row_at(levels, node);
    assert((x < ceil_div(below.0, 2)) == (x * 2 < below.0));
    assert((y < ceil_div(below.1, 2)) == (y * 2 < below.1));
}

/// A node of a level is found again from its column and row.
proof fn lemma_node_at(
    width: int,
    height: int,
    tile_edge: int,
    flat: bool,
    k: int,
    x: int,
    y: int,
)
    requires
        width >= 1,
        height >= 1,
        tile_edge >= 1,
        0 <= k < grid_levels(width, height, tile_edge, flat).len(),
        0 <= x < grid_levels(width, height, tile_edge, flat)[k].0,
        0 <= y < grid_levels(width, height, tile_edge, flat)[k].1,
    ensures
        ({
            let levels = grid_levels(width, height, tile_edge, flat);
            let node = levels[k].2 + y * levels[k].0 + x;
            &&& 0 <= node < end_of(levels)
            &&& level_at(levels, node) == k
            &&& column_at(levels, node) == x
            &&& row_at(levels, node) == y
        }),
{
    let levels = grid_levels(width, height, tile_edge, flat);
    let level = levels[k];
    let node = level.2 + y * level.0 + x;
    lemma_ceil_div(width, tile_edge);
    lemma_ceil_div(height, tile_edge);
    lemma_levels(ceil_div(width, tile_edge), ceil_div(height, tile_edge), 0, flat);
    lemma_row_major(y, x, level.0, level.1);
    assert(y * level.0 >= 0) by (nonlinear_arith)
        requires
            y >= 0,
            level.0 >= 0,
    ;
    assert(level.0 * level.1 == level.1 * level.0) by (nonlinear_arith);
    let top = levels.len() - 1;
    if k < top {
        assert(levels[k + 1].2 == level.2 + level.0 * level.1);
        assert(levels[top].0 * levels[top].1 > 0) by (nonlinear_arith)
            requires
                levels[top].0 >= 1,
                levels[top].1 >= 1,
        ;
        if k + 1 < top {
            assert(levels[k + 1].2 < levels[top].2);
        }
    }
    lemma_level_at(levels, node);
    let j = level_at(levels, node);
    if j < k {
        assert(levels[j + 1].2 <= levels[k].2) by {
            if j + 1 < k {
                assert(levels[j + 1].2 < levels[k].2);
            }
        }
    }
    if j > k {
        assert(levels[k + 1].2 <= levels[j].2) by {
            if k + 1 < j {
                assert(levels[k + 1].2 < levels[j].2);
            }
        }
    }
    vstd::arithmetic::div_mod::lemma_fundamental_div_mod_converse(node - level.2, level.0, y, x);
}

/// The node of a level that holds a cell.
pub proof fn lemma_home(
    width: int,
    height: int,
    tile_edge: int,
    flat: bool,
    k: int,
    x: int,
    y: int,
) -> (home: int)
    requires
        width >= 1,
        height >= 1,
        tile_edge >= 1,
        0 <= k < grid_levels(width, height, tile_edge, flat).len(),
        0 <= x < width,
        0 <= y < height,
    ensures
        ({
            let levels = grid_levels(width, height, tile_edge, flat);
            let edge = edge_at(tile_edge, k);
            &&& home == levels[k].2 + y / edge * levels[k].0 + x / edge
            &&& 0 <= home < end_of(levels)
            &&& level_at(levels, home) == k
        }),
{
    let levels = grid_levels(width, height, tile_edge, flat);
    let edge = edge_at(tile_edge, k);
    lemma_level_counts(width, height, tile_edge, flat, k);
    lemma_ceil_div(width, edge);
    lemma_ceil_div(height, edge);
    let cx = x / edge;
    let cy = y / edge;
    vstd::arithmetic::div_mod::lemma_fundamental_div_mod(x, edge);
    vstd::arithmetic::div_mod::lemma_fundamental_div_mod(y, edge);
    assert(edge * cx == cx * edge && edge * cy == cy * edge) by (nonlinear_arith);
    assert((cx < ceil_div(width, edge)) == (cx * edge < width));
    assert((cy < ceil_div(height, edge)) == (cy * edge < height));
    assert(cx >= 0 && cy >= 0) by {
        vstd::arithmetic::div_mod::lemma_div_pos_is_pos(x, edge);
        vstd::arithmetic::div_mod::lemma_div_pos_is_pos(y, edge);
    }
    lemma_node_at(width, height, tile_edge, flat, k, cx, cy);
    levels[k].2 + cy * levels[k].0 + cx
}

/// Every child lies in its parent, and the child that holds a cell of the parent is one of
/// its children. So the children of a node divide its cells among them.
pub proof fn children_divide_their_parent(
    width: int,
    height: int,
    tile_edge: int,
    flat: bool,
    node: int,
    child: int,
    x: int,
    y: int,
)
    requires
        width >= 1,
        height >= 1,
        tile_edge >= 1,
        0 <= node < end_of(grid_levels(width, height, tile_edge, flat)),
        0 <= child < end_of(grid_levels(width, height, tile_edge, flat)),
        level_at(grid_levels(width, height, tile_edge, flat), node) > 0,
        level_at(grid_levels(width, height, tile_edge, flat), child) == level_at(
            grid_levels(width, height, tile_edge, flat),
            node,
        ) - 1,
        0 <= x < width,
        0 <= y < height,
    ensures
        ({
            let levels = grid_levels(width, height, tile_edge, flat);
            let a = box_at(levels, tile_edge, width, height, node);
            let b = box_at(levels, tile_edge, width, height, child);
            let in_parent = a.0 <= x < a.2 && a.1 <= y < a.3;
            let in_child = b.0 <= x < b.2 && b.1 <= y < b.3;
            in_child ==> (in_parent == children_of(levels, node).contains(child))
        }),
{
    let levels = grid_levels(width, height, tile_edge, flat);
    let k = level_at(levels, node);
    let big = edge_at(tile_edge, k);
    let small = edge_at(tile_edge, k - 1);
    let a = box_at(levels, tile_edge, width, height, node);
    let b = box_at(levels, tile_edge, width, height, child);
    lemma_parent(width, height, tile_edge, flat, node);
    lemma_node(width, height, tile_edge, flat, node);
    lemma_node(width, height, tile_edge, flat, child);
    if b.0 <= x < b.2 && b.1 <= y < b.3 {
        let px = column_at(levels, node);
        let py = row_at(levels, node);
        let cx = column_at(levels, child);
        let cy = row_at(levels, child);
        lemma_halves(x, px, cx, small);
        lemma_halves(y, py, cy, small);
        lemma_children(levels, node, child, cx, cy);
    }
}

/// A cell in a child column lies in the parent column exactly where the parent's halves
/// hold the child.
proof fn lemma_halves(x: int, parent: int, child: int, small: int)
    requires
        small >= 1,
        child * small <= x < child * small + small,
    ensures
        (parent * (2 * small) <= x < parent * (2 * small) + 2 * small) == (child == 2 * parent
            || child == 2 * parent + 1),
{
    assert(parent * (2 * small) == (2 * parent) * small) by (nonlinear_arith);
    let p = 2 * parent;
    if child >= p + 2 {
        assert(child * small >= (p + 2) * small) by (nonlinear_arith)
            requires
                child >= p + 2,
                small >= 1,
        ;
        assert((p + 2) * small == p * small + 2 * small) by (nonlinear_arith);
    } else if child < p {
        assert(child * small + small <= p * small) by (nonlinear_arith)
            requires
                child < p,
                small >= 1,
        ;
    } else {
        assert((p + 1) * small == p * small + small) by (nonlinear_arith);
    }
}

proof fn lemma_children(levels: Seq<(int, int, int)>, node: int, child: int, cx: int, cy: int)
    requires
        ({
            let below = levels[level_at(levels, node) - 1];
            &&& child == below.2 + cy * below.0 + cx
            &&& 0 <= cx < below.0
            &&& 0 <= cy < below.1
            &&& 0 <= column_at(levels, node)
            &&& 0 <= row_at(levels, node)
            &&& 2 * column_at(levels, node) < below.0
            &&& 2 * row_at(levels, node) < below.1
        }),
    ensures
        children_of(levels, node).contains(child) == ({
            let x = 2 * column_at(levels, node);
            let y = 2 * row_at(levels, node);
            (cx == x || cx == x + 1) && (cy == y || cy == y + 1)
        }),
{
    let below = levels[level_at(levels, node) - 1];
    let x = 2 * column_at(levels, node);
    let y = 2 * row_at(levels, node);
    let s = children_of(levels, node);
    let n0 = below.2 + y * below.0 + x;
    let n1 = below.2 + y * below.0 + (x + 1);
    let n2 = below.2 + (y + 1) * below.0 + x;
    let n3 = below.2 + (y + 1) * below.0 + (x + 1);
    let right = x + 1 < below.0;
    let down = y + 1 < below.1;
    if right && down {
        assert(s =~= seq![n0, n1, n2, n3]);
    } else if right {
        assert(s =~= seq![n0, n1]);
    } else if down {
        assert(s =~= seq![n0, n2]);
    } else {
        assert(s =~= seq![n0]);
    }
    assert forall|a: int, b: int|
        0 <= a < below.0 && 0 <= b && #[trigger] (below.2 + b * below.0 + a) == child implies a == cx
        && b == cy by {
        if a != cx || b != cy {
            lemma_distinct(b, a, cy, cx, below.0);
        }
    }
    if (cx == x || cx == x + 1) && (cy == y || cy == y + 1) {
        assert(s.contains(child)) by {
            if cx == x && cy == y {
                assert(s[0] == child);
            } else if cx == x + 1 && cy == y {
                assert(s[1] == child);
            } else if cx == x {
                assert(s[if right {
                    2int
                } else {
                    1
                }] == child);
            } else {
                assert(s[3] == child);
            }
        }
    }
    if s.contains(child) {
        let i = s.index_of(child);
        assert(s[i] == child);
    }
}

/// A child is a node of the level below.
pub proof fn a_child_is_a_node_below(
    width: int,
    height: int,
    tile_edge: int,
    flat: bool,
    node: int,
    i: int,
)
    requires
        width >= 1,
        height >= 1,
        tile_edge >= 1,
        0 <= node < end_of(grid_levels(width, height, tile_edge, flat)),
        level_at(grid_levels(width, height, tile_edge, flat), node) > 0,
        0 <= i < children_of(grid_levels(width, height, tile_edge, flat), node).len(),
    ensures
        ({
            let levels = grid_levels(width, height, tile_edge, flat);
            let child = children_of(levels, node)[i];
            &&& 0 <= child < node
            &&& level_at(levels, child) == level_at(levels, node) - 1
        }),
{
    let levels = grid_levels(width, height, tile_edge, flat);
    let k = level_at(levels, node);
    lemma_parent(width, height, tile_edge, flat, node);
    lemma_node(width, height, tile_edge, flat, node);
    let below = levels[k - 1];
    let x = 2 * column_at(levels, node);
    let y = 2 * row_at(levels, node);
    let s = children_of(levels, node);
    let right = x + 1 < below.0;
    let down = y + 1 < below.1;
    let n0 = below.2 + y * below.0 + x;
    let n1 = below.2 + y * below.0 + (x + 1);
    let n2 = below.2 + (y + 1) * below.0 + x;
    let n3 = below.2 + (y + 1) * below.0 + (x + 1);
    let (cx, cy) = if right && down {
        assert(s =~= seq![n0, n1, n2, n3]);
        (x + i % 2, y + i / 2)
    } else if right {
        assert(s =~= seq![n0, n1]);
        (x + i, y)
    } else if down {
        assert(s =~= seq![n0, n2]);
        (x, y + i)
    } else {
        assert(s =~= seq![n0]);
        (x, y)
    };
    assert(s[i] == below.2 + cy * below.0 + cx);
    lemma_node_at(width, height, tile_edge, flat, k - 1, cx, cy);
    lemma_row_major(cy, cx, below.0, below.1);
    assert(below.0 * below.1 == below.1 * below.0) by (nonlinear_arith);
}

impl SummaryLayout {
    /// The children of a node above the lowest level.
    pub fn children(&self, width: usize, height: usize, node: usize) -> (r: Result<
        Vec<usize>,
        Error,
    >)
        requires
            self.fits(width as int, height as int),
            node < end_of(widen(self.levels@)),
            end_of(widen(self.levels@)) <= usize::MAX,
        ensures
            if level_at(widen(self.levels@), node as int) == 0 {
                r is Err && r->Err_0 == Error::NoChildren
            } else {
                &&& r matches Ok(children)
                &&& children@.len() == children_of(widen(self.levels@), node as int).len()
                &&& forall|i: int|
                    0 <= i < children@.len() ==> #[trigger] children@[i] == children_of(
                        widen(self.levels@),
                        node as int,
                    )[i]
            },
    {
        let k: usize = self.level(node);
        if k == 0 {
            return Err(Error::NoChildren);
        }
        let ghost levels = widen(self.levels@);
        let ghost flat = self.of_grid(width as int, height as int, true);
        proof {
            lemma_parent(width as int, height as int, self.tile_edge as int, flat, node as int);
            lemma_node(width as int, height as int, self.tile_edge as int, flat, node as int);
            assert(levels[k as int] == (
                self.levels@[k as int].0 as int,
                self.levels@[k as int].1 as int,
                self.levels@[k as int].2 as int,
            ));
            assert(levels[k - 1] == (
                self.levels@[k - 1].0 as int,
                self.levels@[k - 1].1 as int,
                self.levels@[k - 1].2 as int,
            ));
        }
        let (nx, _, first) = self.levels[k];
        let local: usize = node - first;
        let x: usize = local % nx * 2;
        let y: usize = local / nx * 2;
        let below: Level = self.levels[k - 1];
        let mut children: Vec<usize> = Vec::new();
        assert(counted(children@) =~= Seq::<int>::empty());
        push_node(&mut children, below, x, y);
        push_node(&mut children, below, x + 1, y);
        push_node(&mut children, below, x, y + 1);
        push_node(&mut children, below, x + 1, y + 1);
        proof {
            let all = children_of(levels, node as int);
            assert(counted(children@) == all);
            assert forall|i: int| 0 <= i < children@.len() implies #[trigger] children@[i]
                == all[i] by {
                assert(counted(children@)[i] == all[i]);
            }
        }
        Ok(children)
    }
}

/// Values as they are counted.
spec fn counted(values: Seq<usize>) -> Seq<int> {
    values.map_values(|v: usize| v as int)
}

/// Add the node of a level at a column and row, where there is one.
fn push_node(nodes: &mut Vec<usize>, level: Level, x: usize, y: usize)
    requires
        level.2 + level.0 * level.1 <= usize::MAX,
    ensures
        counted(final(nodes)@) == with_node(
            counted(old(nodes)@),
            node_at((level.0 as int, level.1 as int, level.2 as int), x as int, y as int),
        ),
{
    if x < level.0 && y < level.1 {
        proof {
            lemma_row_major(y as int, x as int, level.0 as int, level.1 as int);
            let n = level.0 as int;
            assert(level.0 * level.1 == level.1 * n && y * n >= 0) by (nonlinear_arith)
                requires
                    n == level.0,
                    y >= 0,
            ;
        }
        let ghost before = nodes@;
        nodes.push(level.2 + y * level.0 + x);
        assert(counted(nodes@) =~= counted(before).push(level.2 + y * level.0 + x));
    }
}

} // verus!
