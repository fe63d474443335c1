//! The tiles that a window needs, and the payloads in which their records lie.
use vstd::arithmetic::div_mod::lemma_div_is_ordered;
use vstd::prelude::*;

use crate::index::{lemma_distinct, lemma_row_major, lemma_row_of};
use crate::layout::{
    a_level_divides_the_grid, box_at, edge_at, end_of, lemma_level_counts, lemma_levels, lemma_node,
    level_at,
};
use crate::model::{ceil_div, div_ceil, lemma_ceil_div};
use crate::skv_header::Header;
use crate::skv_window::{all_wf, led, one_payload, selected_group_members, Pending};

verus! {

/// A window has cells, and all of them are the grid's: left, top, width and height.
pub open spec fn window_inside(header: &Header, window: [usize; 4]) -> bool {
    &&& window[2] > 0
    &&& window[3] > 0
    &&& window[0] + window[2] <= header.grid.width
    &&& window[1] + window[3] <= header.grid.height
}

/// How many tiles of an edge `size` cells from `at` on touch.
pub open spec fn touched(at: int, size: int, edge: int) -> int {
    (at + size - 1) / edge - at / edge + 1
}

/// The tiles that a window touches, row after row.
pub open spec fn tiles_of(header: &Header, window: [usize; 4]) -> Seq<int> {
    let edge = header.chunk_edge as int;
    let nx = ceil_div(header.grid.width as int, edge);
    let across = touched(window[0] as int, window[2] as int, edge);
    let down = touched(window[1] as int, window[3] as int, edge);
    Seq::new(
        (across * down) as nat,
        |i: int| (window[1] as int / edge + i / across) * nx + window[0] as int / edge + i % across,
    )
}

/// A cell lies in a node's box.
pub open spec fn holds_cell(header: &Header, node: int, x: int, y: int) -> bool {
    let b = box_at(
        header.level_seq(),
        header.chunk_edge as int,
        header.grid.width as int,
        header.grid.height as int,
        node,
    );
    b.0 <= x < b.2 && b.1 <= y < b.3
}

/// The tiles that a stretch of a side touches are tiles of the side.
proof fn lemma_touched(at: int, size: int, edge: int, side: int)
    requires
        0 <= at,
        0 < size,
        0 < edge,
        at + size <= side,
    ensures
        touched(at, size, edge) >= 1,
        0 <= at / edge,
        at / edge + touched(at, size, edge) <= ceil_div(side, edge),
{
    lemma_div_is_ordered(0, at, edge);
    lemma_div_is_ordered(at, at + size - 1, edge);
    let last = (at + size - 1) / edge;
    lemma_ceil_div(side, edge);
    vstd::arithmetic::div_mod::lemma_fundamental_div_mod(at + size - 1, edge);
    assert(last * edge == edge * last) by (nonlinear_arith);
    assert((last < ceil_div(side, edge)) == (last * edge < side));
    assert(0int / edge == 0) by (nonlinear_arith)
        requires
            edge > 0,
    ;
}

/// A leaf's box holds the cells of its row and column alone.
proof fn lemma_leaf_holds(header: &Header, node: int, x: int, y: int)
    requires
        header.shaped(),
        0 <= node < header.leaf_count(),
        0 <= x < header.grid.width,
        0 <= y < header.grid.height,
    ensures
        holds_cell(header, node, x, y) == (node == y / header.chunk_edge as int * ceil_div(
            header.grid.width as int,
            header.chunk_edge as int,
        ) + x / header.chunk_edge as int),
{
    let w = header.grid.width as int;
    let h = header.grid.height as int;
    let edge = header.chunk_edge as int;
    let levels = header.level_seq();
    header.lemma_leaves();
    lemma_ceil_div(w, edge);
    lemma_ceil_div(h, edge);
    lemma_levels(ceil_div(w, edge), ceil_div(h, edge), 0, false);
    lemma_node(w, h, edge, false, node);
    let k = level_at(levels, node);
    if k > 0 {
        assert(levels[0].2 + levels[0].0 * levels[0].1 == levels[1].2);
        if k > 1 {
            assert(levels[1].2 < levels[k].2);
        }
    }
    lemma_level_counts(w, h, edge, false, 0);
    vstd::arithmetic::power2::lemma2_to64();
    assert(edge_at(edge, 0) == edge);
    a_level_divides_the_grid(w, h, edge, false, 0, x, y, node);
}

/// Where the `i`th tile of a window stands: in the rows and columns that the window touches.
proof fn lemma_tile(header: &Header, window: [usize; 4], i: int)
    requires
        header.shaped(),
        window_inside(header, window),
        0 <= i < tiles_of(header, window).len(),
    ensures
        ({
            let edge = header.chunk_edge as int;
            let nx = ceil_div(header.grid.width as int, edge);
            let across = touched(window[0] as int, window[2] as int, edge);
            let down = touched(window[1] as int, window[3] as int, edge);
            let row = window[1] as int / edge + i / across;
            let column = window[0] as int / edge + i % across;
            &&& across >= 1
            &&& 0 <= i / across < down
            &&& 0 <= i % across < across
            &&& i == i / across * across + i % across
            &&& 0 <= row < ceil_div(header.grid.height as int, edge)
            &&& 0 <= column < nx
            &&& tiles_of(header, window)[i] == row * nx + column
            &&& 0 <= tiles_of(header, window)[i] < header.leaf_count()
        }),
{
    let edge = header.chunk_edge as int;
    let nx = ceil_div(header.grid.width as int, edge);
    let ny = ceil_div(header.grid.height as int, edge);
    let across = touched(window[0] as int, window[2] as int, edge);
    let down = touched(window[1] as int, window[3] as int, edge);
    lemma_touched(window[0] as int, window[2] as int, edge, header.grid.width as int);
    lemma_touched(window[1] as int, window[3] as int, edge, header.grid.height as int);
    assert(across * down == down * across) by (nonlinear_arith);
    assert(across * down >= 0) by (nonlinear_arith)
        requires
            across >= 1,
            down >= 1,
    ;
    lemma_row_of(i, across, down);
    let row = window[1] as int / edge + i / across;
    let column = window[0] as int / edge + i % across;
    lemma_row_major(row, column, nx, ny);
    assert(ny * nx == nx * ny) by (nonlinear_arith);
}

/// A window lies in its tiles: each of its cells is in one of them, and in only one.
pub proof fn a_window_lies_in_its_tiles(header: &Header, window: [usize; 4], x: int, y: int)
    requires
        header.shaped(),
        window_inside(header, window),
        window[0] <= x < window[0] + window[2],
        window[1] <= y < window[1] + window[3],
    ensures
        exists|i: int|
            0 <= i < tiles_of(header, window).len() && holds_cell(
                header,
                #[trigger] tiles_of(header, window)[i],
                x,
                y,
            ),
        forall|i: int, j: int|
            0 <= i < tiles_of(header, window).len() && 0 <= j < tiles_of(header, window).len()
                && holds_cell(header, #[trigger] tiles_of(header, window)[i], x, y) && holds_cell(
                header,
                #[trigger] tiles_of(header, window)[j],
                x,
                y,
            ) ==> i == j,
{
    let edge = header.chunk_edge as int;
    let nx = ceil_div(header.grid.width as int, edge);
    let across = touched(window[0] as int, window[2] as int, edge);
    let down = touched(window[1] as int, window[3] as int, edge);
    let left = window[0] as int / edge;
    let top = window[1] as int / edge;
    let tiles = tiles_of(header, window);
    lemma_touched(window[0] as int, window[2] as int, edge, header.grid.width as int);
    lemma_touched(window[1] as int, window[3] as int, edge, header.grid.height as int);
    lemma_div_is_ordered(window[0] as int, x, edge);
    lemma_div_is_ordered(x, window[0] + window[2] - 1, edge);
    lemma_div_is_ordered(window[1] as int, y, edge);
    lemma_div_is_ordered(y, window[1] + window[3] - 1, edge);
    let row = y / edge;
    let column = x / edge;
    let here = (row - top) * across + (column - left);
    lemma_row_major(row - top, column - left, across, down);
    assert(across * down == down * across) by (nonlinear_arith);
    assert(tiles.len() == across * down);
    assert forall|i: int| 0 <= i < tiles.len() implies holds_cell(header, #[trigger] tiles[i], x, y)
        == (i == here) by {
        lemma_tile(header, window, i);
        lemma_leaf_holds(header, tiles[i], x, y);
        let r = top + i / across;
        let c = left + i % across;
        if r != row || c != column {
            lemma_distinct(r, c, row, column, nx);
        } else {
            assert(i / across == row - top);
        }
    }
    assert(holds_cell(header, tiles[here], x, y));
}

/// Each tile of a window has a cell of it.
pub proof fn a_tile_of_a_window_meets_it(header: &Header, window: [usize; 4], i: int)
    requires
        header.shaped(),
        window_inside(header, window),
        0 <= i < tiles_of(header, window).len(),
    ensures
        exists|x: int, y: int|
            window[0] <= x < window[0] + window[2] && window[1] <= y < window[1] + window[3]
                && #[trigger] holds_cell(header, tiles_of(header, window)[i], x, y),
{
    let edge = header.chunk_edge as int;
    let across = touched(window[0] as int, window[2] as int, edge);
    let down = touched(window[1] as int, window[3] as int, edge);
    lemma_tile(header, window, i);
    let node = tiles_of(header, window)[i];
    let x = lemma_touching(window[0] as int, window[2] as int, edge, i % across);
    let y = lemma_touching(window[1] as int, window[3] as int, edge, i / across);
    lemma_leaf_holds(header, node, x, y);
    assert(holds_cell(header, node, x, y));
}

/// The `k`th tile that a stretch touches has a cell of the stretch.
proof fn lemma_touching(at: int, size: int, edge: int, k: int) -> (x: int)
    requires
        0 <= at,
        0 < size,
        0 < edge,
        0 <= k < touched(at, size, edge),
    ensures
        at <= x < at + size,
        x / edge == at / edge + k,
{
    let tile = at / edge + k;
    if k == 0 {
        at
    } else {
        let x = tile * edge;
        vstd::arithmetic::div_mod::lemma_fundamental_div_mod(at, edge);
        vstd::arithmetic::div_mod::lemma_fundamental_div_mod(at + size - 1, edge);
        let first = at / edge;
        let last = (at + size - 1) / edge;
        assert(at < x <= at + size - 1) by (nonlinear_arith)
            requires
                x == tile * edge,
                first + 1 <= tile <= last,
                0 < edge,
                at == edge * first + at % edge,
                0 <= at % edge < edge,
                at + size - 1 == edge * last + (at + size - 1) % edge,
                0 <= (at + size - 1) % edge,
        ;
        vstd::arithmetic::div_mod::lemma_div_multiples_vanish(tile, edge);
        assert(tile * edge == edge * tile) by (nonlinear_arith);
        x
    }
}

/// The tiles that a window touches, row after row.
pub fn window_tiles(header: &Header, window: [usize; 4]) -> (r: Vec<usize>)
    requires
        header.shaped(),
        window_inside(header, window),
    ensures
        r@.len() == tiles_of(header, window).len(),
        forall|i: int| 0 <= i < r@.len() ==> #[trigger] r@[i] == tiles_of(header, window)[i],
        forall|i: int| 0 <= i < r@.len() ==> #[trigger] r@[i] < header.leaf_count(),
{
    let edge: usize = header.chunk_edge;
    let x: usize = window[0];
    let y: usize = window[1];
    let w: usize = window[2];
    let h: usize = window[3];
    let nx: usize = div_ceil(header.grid.width, edge);
    let ghost across = touched(x as int, w as int, edge as int);
    let ghost down = touched(y as int, h as int, edge as int);
    proof {
        lemma_touched(x as int, w as int, edge as int, header.grid.width as int);
        lemma_touched(y as int, h as int, edge as int, header.grid.height as int);
        header.lemma_leaves();
    }
    let left: usize = x / edge;
    let right: usize = (x + w - 1) / edge;
    let top: usize = y / edge;
    let bottom: usize = (y + h - 1) / edge;
    let mut tiles: Vec<usize> = Vec::new();
    let mut row: usize = top;
    while row <= bottom
        invariant
            header.shaped(),
            window_inside(header, window),
            window[0] == x && window[1] == y && window[2] == w && window[3] == h,
            edge == header.chunk_edge,
            nx == ceil_div(header.grid.width as int, edge as int),
            left == x as int / edge as int,
            right == (x + w - 1) / edge as int,
            top == y as int / edge as int,
            bottom == (y + h - 1) / edge as int,
            across == right - left + 1,
            down == bottom - top + 1,
            across >= 1,
            across == touched(x as int, w as int, edge as int),
            down == touched(y as int, h as int, edge as int),
            top <= row <= bottom + 1,
            bottom < usize::MAX,
            right < usize::MAX,
            tiles_of(header, window).len() == across * down,
            tiles@.len() == (row - top) * across,
            forall|i: int|
                0 <= i < tiles@.len() ==> #[trigger] tiles@[i] == tiles_of(header, window)[i],
        decreases bottom + 1 - row,
    {
        let mut column: usize = left;
        while column <= right
            invariant
                header.shaped(),
                window_inside(header, window),
                window[0] == x && window[1] == y && window[2] == w && window[3] == h,
                edge == header.chunk_edge,
                nx == ceil_div(header.grid.width as int, edge as int),
                left == x as int / edge as int,
                top == y as int / edge as int,
                across == right - left + 1,
                down == bottom - top + 1,
                across >= 1,
                across == touched(x as int, w as int, edge as int),
                down == touched(y as int, h as int, edge as int),
                top <= row <= bottom,
                left <= column <= right + 1,
                right < usize::MAX,
                tiles_of(header, window).len() == across * down,
                tiles@.len() == (row - top) * across + (column - left),
                forall|i: int|
                    0 <= i < tiles@.len() ==> #[trigger] tiles@[i] == tiles_of(header, window)[i],
            decreases right + 1 - column,
        {
            let ghost i = tiles@.len() as int;
            proof {
                lemma_row_major(row - top, column - left, across, down);
                assert(across * down == down * across) by (nonlinear_arith);
                lemma_tile(header, window, i);
                header.lemma_leaves();
                assert(0 <= row * nx) by (nonlinear_arith)
                    requires
                        0 <= row,
                        0 <= nx,
                ;
                assert(tiles_of(header, window)[i] == row * nx + column);
            }
            tiles.push(row * nx + column);
            column += 1;
        }
        proof {
            assert((row - top) * across + across == (row + 1 - top) * across) by (nonlinear_arith);
        }
        row += 1;
    }
    proof {
        assert((bottom + 1 - top) * across == across * down) by (nonlinear_arith)
            requires
                down == bottom - top + 1,
        ;
        assert forall|i: int| 0 <= i < tiles@.len() implies #[trigger] tiles@[i]
            < header.leaf_count() by {
            lemma_tile(header, window, i);
        }
    }
    tiles
}

/// The record of a band of a tile.
pub fn leaf_record(header: &Header, tile: usize, band: usize) -> (r: usize)
    requires
        header.shaped(),
        tile < header.leaf_count(),
        band < header.raw_metadata.bands@.len(),
    ensures
        r == tile * header.raw_metadata.bands@.len() + band,
        r < header.record_count(),
        r as int / header.raw_metadata.bands@.len() as int == tile,
{
    let n: usize = header.bands();
    proof {
        header.lemma_leaves();
        lemma_row_major(tile as int, band as int, n as int, end_of(header.level_seq()));
        assert(0 <= tile * n) by (nonlinear_arith)
            requires
                0 <= tile,
                0 <= n,
        ;
    }
    tile * n + band
}

/// Records that name one leader lie in one payload.
pub open spec fn leaders_agree(entries: Seq<Pending>) -> bool {
    forall|i: int, j: int|
        0 <= i < entries.len() && 0 <= j < entries.len() && (#[trigger] entries[i]).leader() == (
        #[trigger] entries[j]).leader() ==> entries[i].begin() == entries[j].begin()
            && entries[i].size() == entries[j].size()
}

proof fn lemma_led(entries: Seq<Pending>, leader: int)
    ensures
        0 <= led(entries, leader) <= entries.len(),
        forall|i: int| 0 <= i < led(entries, leader) ==> (#[trigger] entries[i]).leader() == leader,
    decreases entries.len(),
{
    if entries.len() > 0 && entries[0].leader() == leader {
        let rest = entries.drop_first();
        lemma_led(rest, leader);
        assert forall|i: int| 0 <= i < led(entries, leader) implies (#[trigger] entries[i]).leader()
            == leader by {
            if i > 0 {
                assert(entries[i] == rest[i - 1]);
            }
        }
    }
}

/// Take the first payload's records from those of a tile, which stand in the order of their
/// payloads: a whole group where records are grouped, one record where they are not.
pub fn take_payload(selected: &mut Vec<Pending>, grouped: bool) -> (r: Vec<Pending>)
    requires
        old(selected)@.len() > 0,
        all_wf(old(selected)@),
        grouped ==> leaders_agree(old(selected)@),
    ensures
        r@ + final(selected)@ == old(selected)@,
        r@.len() == 1 + if grouped {
            led(old(selected)@.drop_first(), old(selected)@[0].leader())
        } else {
            0
        },
        one_payload(r@),
        all_wf(final(selected)@),
        grouped ==> leaders_agree(final(selected)@),
{
    let ghost all = selected@;
    let n: usize = selected.len();
    proof {
        lemma_led(all.drop_first(), all[0].leader());
    }
    let rest = vstd::slice::slice_subrange(selected.as_slice(), 1, n);
    proof {
        assert(rest@ =~= all.drop_first());
        assert forall|k: int| 0 <= k < rest@.len() implies (#[trigger] rest@[k]).wf() by {
            assert(all[k + 1].wf());
        }
    }
    let members: usize = selected_group_members(grouped, &selected[0], rest);
    let mut tail: Vec<Pending> = selected.split_off(members);
    std::mem::swap(selected, &mut tail);
    proof {
        assert(tail@ =~= all.take(members as int));
        assert(selected@ =~= all.skip(members as int));
        assert(tail@ + selected@ =~= all);
        assert forall|i: int| 0 <= i < tail@.len() implies (#[trigger] tail@[i]).wf() && tail@[i].begin()
            == tail@[0].begin() && tail@[i].size() == tail@[0].size() by {
            assert(tail@[i] == all[i] && tail@[0] == all[0]);
            if i > 0 {
                assert(all.drop_first()[i - 1] == all[i]);
            }
        }
        assert forall|i: int| 0 <= i < selected@.len() implies (#[trigger] selected@[i]).wf() by {
            assert(selected@[i] == all[members + i]);
        }
        if grouped {
            assert forall|i: int, j: int|
                0 <= i < selected@.len() && 0 <= j < selected@.len() && (
                #[trigger] selected@[i]).leader() == (#[trigger] selected@[j]).leader() implies selected@[i].begin()
                == selected@[j].begin() && selected@[i].size() == selected@[j].size() by {
                assert(selected@[i] == all[members + i] && selected@[j] == all[members + j]);
            }
        }
    }
    tail
}

} // verus!
