//! Tiles of a grid, and the levels of parents above them.
//!
//! Level 0 holds the tiles of `tile_edge` cells, row by row. Each further level halves both
//! counts, rounding up, until one node is left. Nodes are numbered level after level.
use vstd::arithmetic::power2::{lemma2_to64, lemma_pow2_unfold, pow2};
use vstd::prelude::*;

use crate::error::Error;
use crate::index::lemma_row_of;
use crate::model::{ceil_div, div_ceil, lemma_ceil_div, lemma_ceil_twice, MAX_SIDE};

verus! {

/// Nodes of a level in a row, nodes of it in a column, and its first node.
pub type Level = (usize, usize, usize);

/// The levels that begin with `x` by `y` nodes, the first of them numbered `offset`.
pub open spec fn levels_of(x: int, y: int, offset: int, flat: bool) -> Seq<(int, int, int)>
    decreases x + y,
{
    if x < 1 || y < 1 || flat || (x == 1 && y == 1) {
        seq![(x, y, offset)]
    } else {
        seq![(x, y, offset)] + levels_of(
            ceil_div(x, 2),
            ceil_div(y, 2),
            offset + x * y,
            flat,
        )
    }
}

/// One past the last node of the levels.
pub open spec fn end_of(levels: Seq<(int, int, int)>) -> int {
    let top = levels[levels.len() - 1];
    top.2 + top.0 * top.1
}

pub open spec fn widen(levels: Seq<Level>) -> Seq<(int, int, int)> {
    levels.map_values(|l: Level| (l.0 as int, l.1 as int, l.2 as int))
}

/// The edge of a node of level `k`, in cells.
pub open spec fn edge_at(tile_edge: int, k: int) -> int {
    tile_edge * pow2(k as nat) as int
}

/// The level that holds `node`.
pub open spec fn level_at(levels: Seq<(int, int, int)>, node: int) -> int
    decreases levels.len(),
{
    if levels.len() <= 1 || levels[levels.len() - 1].2 <= node {
        levels.len() - 1
    } else {
        level_at(levels.drop_last(), node)
    }
}

/// The column of a node in its level.
pub open spec fn column_at(levels: Seq<(int, int, int)>, node: int) -> int {
    let level = levels[level_at(levels, node)];
    (node - level.2) % level.0
}

/// The row of a node in its level.
pub open spec fn row_at(levels: Seq<(int, int, int)>, node: int) -> int {
    let level = levels[level_at(levels, node)];
    (node - level.2) / level.0
}

pub open spec fn min_of(a: int, b: int) -> int {
    if a <= b {
        a
    } else {
        b
    }
}

/// The cells of a node: left, top, right, bottom, the last two exclusive.
pub open spec fn box_at(
    levels: Seq<(int, int, int)>,
    tile_edge: int,
    width: int,
    height: int,
    node: int,
) -> (int, int, int, int) {
    let edge = edge_at(tile_edge, level_at(levels, node));
    let x = column_at(levels, node) * edge;
    let y = row_at(levels, node) * edge;
    (x, y, min_of(x + edge, width), min_of(y + edge, height))
}

/// The levels of a grid under tiles of an edge.
pub open spec fn grid_levels(width: int, height: int, tile_edge: int, flat: bool) -> Seq<
    (int, int, int),
> {
    levels_of(ceil_div(width, tile_edge), ceil_div(height, tile_edge), 0, flat)
}

pub proof fn lemma_levels(x: int, y: int, offset: int, flat: bool)
    requires
        x >= 1,
        y >= 1,
        offset >= 0,
    ensures
        levels_of(x, y, offset, flat).len() > 0,
        levels_of(x, y, offset, flat)[0] == (x, y, offset),
        forall|k: int|
            0 <= k < levels_of(x, y, offset, flat).len() ==> {
                let l = #[trigger] levels_of(x, y, offset, flat)[k];
                l.0 >= 1 && l.1 >= 1 && l.2 >= offset && l.0 <= x && l.1 <= y
            },
        forall|k: int|
            0 <= k < levels_of(x, y, offset, flat).len() - 1 ==> {
                let l = #[trigger] levels_of(x, y, offset, flat)[k];
                let m = levels_of(x, y, offset, flat)[k + 1];
                m == (ceil_div(l.0, 2), ceil_div(l.1, 2), l.2 + l.0 * l.1) && m.2 > l.2 && (l.0 > 1
                    || l.1 > 1)
            },
        forall|j: int, k: int|
            0 <= j < k < levels_of(x, y, offset, flat).len() ==> (#[trigger] levels_of(
                x,
                y,
                offset,
                flat,
            )[j]).2 < (#[trigger] levels_of(x, y, offset, flat)[k]).2,
        offset + x * y <= end_of(levels_of(x, y, offset, flat)),
        x * y > 0,
    decreases x + y,
{
    assert(x * y > 0) by (nonlinear_arith)
        requires
            x >= 1,
            y >= 1,
    ;
    if !(flat || (x == 1 && y == 1)) {
        lemma_ceil_div(x, 2);
        lemma_ceil_div(y, 2);
        let rest = levels_of(ceil_div(x, 2), ceil_div(y, 2), offset + x * y, flat);
        lemma_levels(ceil_div(x, 2), ceil_div(y, 2), offset + x * y, flat);
        let all = levels_of(x, y, offset, flat);
        assert(all == seq![(x, y, offset)] + rest);
        assert forall|k: int| 0 <= k < all.len() implies {
            let l = #[trigger] all[k];
            l.0 >= 1 && l.1 >= 1 && l.2 >= offset && l.0 <= x && l.1 <= y
        } by {
            if k > 0 {
                assert(all[k] == rest[k - 1]);
            }
        }
        assert forall|k: int| 0 <= k < all.len() - 1 implies {
            let l = #[trigger] all[k];
            let m = all[k + 1];
            m == (ceil_div(l.0, 2), ceil_div(l.1, 2), l.2 + l.0 * l.1) && m.2 > l.2 && (l.0 > 1
                || l.1 > 1)
        } by {
            assert(all[k + 1] == rest[k]);
            if k > 0 {
                assert(all[k] == rest[k - 1]);
            }
        }
        assert forall|j: int, k: int| 0 <= j < k < all.len() implies (#[trigger] all[j]).2 < (
        #[trigger] all[k]).2 by {
            assert(all[k] == rest[k - 1]);
            if j > 0 {
                assert(all[j] == rest[j - 1]);
            }
        }
        assert(all[all.len() - 1] == rest[rest.len() - 1]);
    }
}

/// Each level covers the grid with nodes of its edge.
pub proof fn lemma_level_counts(width: int, height: int, tile_edge: int, flat: bool, k: int)
    requires
        width >= 1,
        height >= 1,
        tile_edge >= 1,
        0 <= k < grid_levels(width, height, tile_edge, flat).len(),
    ensures
        grid_levels(width, height, tile_edge, flat)[k].0 == ceil_div(width, edge_at(tile_edge, k)),
        grid_levels(width, height, tile_edge, flat)[k].1 == ceil_div(height, edge_at(tile_edge, k)),
        edge_at(tile_edge, k) >= tile_edge,
        k > 0 ==> edge_at(tile_edge, k) == 2 * edge_at(tile_edge, k - 1),
        k > 0 ==> edge_at(tile_edge, k - 1) < width || edge_at(tile_edge, k - 1) < height,
    decreases k,
{
    lemma_ceil_div(width, tile_edge);
    lemma_ceil_div(height, tile_edge);
    lemma_levels(ceil_div(width, tile_edge), ceil_div(height, tile_edge), 0, flat);
    let levels = grid_levels(width, height, tile_edge, flat);
    if k == 0 {
        lemma2_to64();
        assert(edge_at(tile_edge, 0) == tile_edge);
    } else {
        lemma_level_counts(width, height, tile_edge, flat, k - 1);
        let below = edge_at(tile_edge, k - 1);
        lemma_pow2_unfold(k as nat);
        assert(edge_at(tile_edge, k) == 2 * below) by (nonlinear_arith)
            requires
                edge_at(tile_edge, k) == tile_edge * pow2(k as nat),
                below == tile_edge * pow2((k - 1) as nat),
                pow2(k as nat) == 2 * pow2((k - 1) as nat),
        ;
        lemma_ceil_twice(width, below);
        lemma_ceil_twice(height, below);
        assert(levels[k - 1].0 > 1 || levels[k - 1].1 > 1);
        lemma_ceil_div(width, below);
        lemma_ceil_div(height, below);
        assert(1 * below == below);
        assert((1 < ceil_div(width, below)) == (1 * below < width));
        assert((1 < ceil_div(height, below)) == (1 * below < height));
    }
}

/// A node below the end lies in its level.
pub proof fn lemma_level_at(levels: Seq<(int, int, int)>, node: int)
    requires
        levels.len() > 0,
        levels[0].2 == 0,
        forall|j: int, k: int|
            0 <= j < k < levels.len() ==> (#[trigger] levels[j]).2 < (#[trigger] levels[k]).2,
        0 <= node,
    ensures
        0 <= level_at(levels, node) < levels.len(),
        levels[level_at(levels, node)].2 <= node,
        level_at(levels, node) + 1 < levels.len() ==> node < levels[level_at(levels, node) + 1].2,
    decreases levels.len(),
{
    if !(levels.len() <= 1 || levels[levels.len() - 1].2 <= node) {
        let rest = levels.drop_last();
        assert forall|j: int, k: int| 0 <= j < k < rest.len() implies (#[trigger] rest[j]).2 < (
        #[trigger] rest[k]).2 by {
            assert(rest[j] == levels[j] && rest[k] == levels[k]);
        }
        lemma_level_at(rest, node);
    }
}

/// Where a node lies: in its level, in a row and a column of it, and in the grid.
pub proof fn lemma_node(width: int, height: int, tile_edge: int, flat: bool, node: int)
    requires
        width >= 1,
        height >= 1,
        tile_edge >= 1,
        0 <= node < end_of(grid_levels(width, height, tile_edge, flat)),
    ensures
        ({
            let levels = grid_levels(width, height, tile_edge, flat);
            let k = level_at(levels, node);
            let edge = edge_at(tile_edge, k);
            let b = box_at(levels, tile_edge, width, height, node);
            &&& 0 <= k < levels.len()
            &&& levels[k].2 <= node < levels[k].2 + levels[k].0 * levels[k].1
            &&& 0 <= column_at(levels, node) < levels[k].0
            &&& 0 <= row_at(levels, node) < levels[k].1
            &&& node == levels[k].2 + row_at(levels, node) * levels[k].0 + column_at(levels, node)
            &&& edge >= tile_edge
            &&& 0 <= b.0 < b.2 <= width
            &&& 0 <= b.1 < b.3 <= height
            &&& b.2 - b.0 <= edge
            &&& b.3 - b.1 <= edge
        }),
{
    let levels = grid_levels(width, height, tile_edge, flat);
    lemma_ceil_div(width, tile_edge);
    lemma_ceil_div(height, tile_edge);
    lemma_levels(ceil_div(width, tile_edge), ceil_div(height, tile_edge), 0, flat);
    lemma_level_at(levels, node);
    let k = level_at(levels, node);
    lemma_level_counts(width, height, tile_edge, flat, k);
    let l = levels[k];
    let local = node - l.2;
    if k + 1 < levels.len() {
        assert(levels[k + 1].2 == l.2 + l.0 * l.1);
    }
    assert(l.0 * l.1 == l.1 * l.0) by (nonlinear_arith);
    lemma_row_of(local, l.0, l.1);
    let edge = edge_at(tile_edge, k);
    lemma_ceil_div(width, edge);
    lemma_ceil_div(height, edge);
    let cx = column_at(levels, node);
    let cy = row_at(levels, node);
    assert((cx < ceil_div(width, edge)) == (cx * edge < width));
    assert((cy < ceil_div(height, edge)) == (cy * edge < height));
    assert(0 <= cx * edge && 0 <= cy * edge) by (nonlinear_arith)
        requires
            0 <= cx,
            0 <= cy,
            0 < edge,
    ;
}

/// The nodes of a level divide the grid: each cell lies in the node of its row and column,
/// and in no other node of the level.
pub proof fn a_level_divides_the_grid(
    width: int,
    height: int,
    tile_edge: int,
    flat: bool,
    k: int,
    x: int,
    y: int,
    node: int,
)
    requires
        width >= 1,
        height >= 1,
        tile_edge >= 1,
        0 <= k < grid_levels(width, height, tile_edge, flat).len(),
        0 <= x < width,
        0 <= y < height,
        0 <= node < end_of(grid_levels(width, height, tile_edge, flat)),
        level_at(grid_levels(width, height, tile_edge, flat), node) == k,
    ensures
        ({
            let levels = grid_levels(width, height, tile_edge, flat);
            let b = box_at(levels, tile_edge, width, height, node);
            let edge = edge_at(tile_edge, k);
            (b.0 <= x < b.2 && b.1 <= y < b.3) == (node == levels[k].2 + y / edge * levels[k].0 + x
                / edge)
        }),
{
    let levels = grid_levels(width, height, tile_edge, flat);
    lemma_node(width, height, tile_edge, flat, node);
    lemma_level_counts(width, height, tile_edge, flat, k);
    let edge = edge_at(tile_edge, k);
    let cx = column_at(levels, node);
    let cy = row_at(levels, node);
    let nx = levels[k].0;
    assert(x < (x + 1) * edge && y < (y + 1) * edge) by (nonlinear_arith)
        requires
            x >= 0,
            y >= 0,
            edge >= 1,
    ;
    lemma_row_of(x, edge, x + 1);
    lemma_row_of(y, edge, y + 1);
    let qx = x / edge;
    let qy = y / edge;
    lemma_ceil_div(width, edge);
    assert((qx < ceil_div(width, edge)) == (qx * edge < width));
    assert((cx * edge <= x < cx * edge + edge) == (cx == qx)) by (nonlinear_arith)
        requires
            x == qx * edge + x % edge,
            0 <= x % edge < edge,
    ;
    assert((cy * edge <= y < cy * edge + edge) == (cy == qy)) by (nonlinear_arith)
        requires
            y == qy * edge + y % edge,
            0 <= y % edge < edge,
    ;
    if cx != qx || cy != qy {
        crate::index::lemma_distinct(cy, cx, qy, qx, nx);
    }
}

/// The levels of tiles over a grid.
#[derive(Debug)]
pub struct SummaryLayout {
    pub tile_edge: usize,
    pub levels: Vec<Level>,
}

impl SummaryLayout {
    /// The levels are those of a grid.
    pub open spec fn of_grid(&self, width: int, height: int, flat: bool) -> bool {
        &&& 1 <= width <= MAX_SIDE
        &&& 1 <= height <= MAX_SIDE
        &&& 1 <= self.tile_edge <= MAX_SIDE
        &&& widen(self.levels@) == grid_levels(width, height, self.tile_edge as int, flat)
        &&& end_of(widen(self.levels@)) <= usize::MAX
    }

    /// The layout of a grid: every level, or the tiles alone.
    pub fn new(width: usize, height: usize, tile_edge: usize, flat: bool) -> (r: Result<
        SummaryLayout,
        Error,
    >)
        requires
            1 <= width <= MAX_SIDE,
            1 <= height <= MAX_SIDE,
            1 <= tile_edge <= MAX_SIDE,
        ensures
            match r {
                Ok(layout) => layout.tile_edge == tile_edge && layout.of_grid(
                    width as int,
                    height as int,
                    flat,
                ),
                Err(e) => e == Error::LayoutOverflow && end_of(
                    grid_levels(width as int, height as int, tile_edge as int, flat),
                ) > usize::MAX,
            },
    {
        let mut x: usize = div_ceil(width, tile_edge);
        let mut y: usize = div_ceil(height, tile_edge);
        let mut offset: usize = 0;
        let mut levels: Vec<Level> = Vec::new();
        let ghost goal = grid_levels(width as int, height as int, tile_edge as int, flat);
        proof {
            lemma_ceil_div(width as int, tile_edge as int);
            lemma_ceil_div(height as int, tile_edge as int);
            assert(widen(levels@) + levels_of(x as int, y as int, 0, flat) =~= goal);
        }
        loop
            invariant
                x >= 1,
                y >= 1,
                widen(levels@) + levels_of(x as int, y as int, offset as int, flat) == goal,
                goal == grid_levels(width as int, height as int, tile_edge as int, flat),
                1 <= width <= MAX_SIDE,
                1 <= height <= MAX_SIDE,
                1 <= tile_edge <= MAX_SIDE,
            decreases x + y,
        {
            let ghost rest = levels_of(x as int, y as int, offset as int, flat);
            let ghost before = widen(levels@);
            proof {
                lemma_levels(x as int, y as int, offset as int, flat);
                assert(goal[goal.len() - 1] == rest[rest.len() - 1]);
            }
            let cells: usize = match x.checked_mul(y) {
                Some(n) => n,
                None => return Err(Error::LayoutOverflow),
            };
            let end: usize = match offset.checked_add(cells) {
                Some(n) => n,
                None => return Err(Error::LayoutOverflow),
            };
            levels.push((x, y, offset));
            proof {
                assert(widen(levels@) =~= before.push((x as int, y as int, offset as int)));
            }
            if flat || (x == 1 && y == 1) {
                proof {
                    assert(before + rest =~= before.push((x as int, y as int, offset as int)));
                }
                return Ok(SummaryLayout { tile_edge, levels });
            }
            proof {
                lemma_ceil_div(x as int, 2);
                lemma_ceil_div(y as int, 2);
                let next = levels_of(
                    ceil_div(x as int, 2),
                    ceil_div(y as int, 2),
                    end as int,
                    flat,
                );
                assert(rest == seq![(x as int, y as int, offset as int)] + next);
                assert(before + rest =~= widen(levels@) + next);
            }
            offset = end;
            x = div_ceil(x, 2);
            y = div_ceil(y, 2);
        }
    }

    /// How many nodes all levels hold together.
    pub fn records(&self) -> (r: Result<usize, Error>)
        ensures
            if self.levels@.len() == 0 || end_of(widen(self.levels@)) > usize::MAX {
                r == Err::<usize, Error>(Error::LayoutOverflow)
            } else {
                r matches Ok(n) && n == end_of(widen(self.levels@))
            },
    {
        let n: usize = self.levels.len();
        if n == 0 {
            return Err(Error::LayoutOverflow);
        }
        let (x, y, offset) = self.levels[n - 1];
        proof {
            assert(widen(self.levels@)[n - 1] == (x as int, y as int, offset as int));
            assert(0 <= x * y) by (nonlinear_arith)
                requires
                    0 <= x,
                    0 <= y,
            ;
        }
        match x.checked_mul(y) {
            None => Err(Error::LayoutOverflow),
            Some(cells) => match offset.checked_add(cells) {
                None => Err(Error::LayoutOverflow),
                Some(end) => Ok(end),
            },
        }
    }

    /// The level of a node, counted from the tiles.
    pub fn level(&self, node: usize) -> (r: usize)
        requires
            self.levels@.len() > 0,
        ensures
            r == level_at(widen(self.levels@), node as int),
            r < self.levels@.len(),
    {
        let mut k: usize = self.levels.len() - 1;
        let ghost all = widen(self.levels@);
        assert(all.take(all.len() as int) =~= all);
        while k > 0 && self.levels[k].2 > node
            invariant
                k < self.levels@.len(),
                all == widen(self.levels@),
                level_at(all, node as int) == level_at(all.take(k + 1), node as int),
            decreases k,
        {
            assert(all.take(k + 1).drop_last() =~= all.take(k as int));
            k -= 1;
        }
        k
    }

    /// The edge of the nodes of a level, in cells.
    fn node_edge(
        &self,
        k: usize,
        Ghost(w): Ghost<int>,
        Ghost(h): Ghost<int>,
        Ghost(flat): Ghost<bool>,
    ) -> (edge: usize)
        requires
            self.of_grid(w, h, flat),
            k < self.levels@.len(),
        ensures
            edge == edge_at(self.tile_edge as int, k as int),
    {
        let ghost e = self.tile_edge as int;
        let mut edge: usize = self.tile_edge;
        let mut i: usize = 0;
        proof {
            lemma_level_counts(w, h, e, flat, 0);
            lemma2_to64();
            assert(edge_at(e, 0) == e * 1);
        }
        while i < k
            invariant
                i <= k < self.levels@.len(),
                e == self.tile_edge,
                self.of_grid(w, h, flat),
                edge == edge_at(e, i as int),
            decreases k - i,
        {
            proof {
                assert(widen(self.levels@).len() == self.levels@.len());
                lemma_level_counts(w, h, e, flat, i + 1);
            }
            edge = edge * 2;
            i += 1;
        }
        edge
    }

    /// The levels are those of a grid, all of them or the tiles alone.
    pub open spec fn fits(&self, width: int, height: int) -> bool {
        self.of_grid(width, height, true) || self.of_grid(width, height, false)
    }

    /// The cells of a node: left, top, right, bottom, the last two exclusive.
    pub fn bounds(&self, width: usize, height: usize, node: usize) -> (r: Result<
        [usize; 4],
        Error,
    >)
        requires
            self.fits(width as int, height as int),
        ensures
            if node < end_of(widen(self.levels@)) {
                let b = box_at(
                    widen(self.levels@),
                    self.tile_edge as int,
                    width as int,
                    height as int,
                    node as int,
                );
                r matches Ok(a) && a[0] == b.0 && a[1] == b.1 && a[2] == b.2 && a[3] == b.3
            } else {
                r == Err::<[usize; 4], Error>(Error::LayoutNode)
            },
    {
        let ghost flat = self.of_grid(width as int, height as int, true);
        let ghost levels = widen(self.levels@);
        let ghost w = width as int;
        let ghost h = height as int;
        let ghost e = self.tile_edge as int;
        proof {
            lemma_ceil_div(w, e);
            lemma_ceil_div(h, e);
            lemma_levels(ceil_div(w, e), ceil_div(h, e), 0, flat);
        }
        let end: usize = match self.records() {
            Ok(n) => n,
            Err(e) => return Err(e),
        };
        if node >= end {
            return Err(Error::LayoutNode);
        }
        let k: usize = self.level(node);
        let (nx, _ny, offset) = self.levels[k];
        let edge: usize = self.node_edge(k, Ghost(w), Ghost(h), Ghost(flat));
        proof {
            lemma_node(w, h, e, flat, node as int);
            assert(levels[k as int] == (nx as int, _ny as int, offset as int));
        }
        let cx: usize = (node - offset) % nx;
        let cy: usize = (node - offset) / nx;
        assert(cx == column_at(levels, node as int) && cy == row_at(levels, node as int));
        let x: usize = cx * edge;
        let y: usize = cy * edge;
        let right: usize = if width - x <= edge {
            width
        } else {
            x + edge
        };
        let bottom: usize = if height - y <= edge {
            height
        } else {
            y + edge
        };
        Ok([x, y, right, bottom])
    }
}

/// A copy of the levels.
pub fn copy_levels(levels: &Vec<Level>) -> (r: Vec<Level>)
    ensures
        r@ == levels@,
{
    let mut out: Vec<Level> = Vec::with_capacity(levels.len());
    let mut i: usize = 0;
    while i < levels.len()
        invariant
            i <= levels@.len(),
            out@ == levels@.take(i as int),
        decreases levels@.len() - i,
    {
        out.push(levels[i]);
        assert(out@ =~= levels@.take(i + 1));
        i += 1;
    }
    assert(levels@.take(levels@.len() as int) =~= levels@);
    out
}

/// Whether two lists of levels are the same.
pub fn same_levels(a: &Vec<Level>, b: &Vec<Level>) -> (r: bool)
    ensures
        r == (a@ == b@),
{
    if a.len() != b.len() {
        return false;
    }
    let mut i: usize = 0;
    while i < a.len()
        invariant
            i <= a@.len(),
            a@.len() == b@.len(),
            forall|k: int| 0 <= k < i ==> a@[k] == b@[k],
        decreases a@.len() - i,
    {
        let x = a[i];
        let y = b[i];
        if x.0 != y.0 || x.1 != y.1 || x.2 != y.2 {
            return false;
        }
        i += 1;
    }
    assert(a@ =~= b@);
    true
}

} // verus!
