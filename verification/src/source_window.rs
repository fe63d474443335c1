//! Which window edge a direct read uses: the requested one, or a larger one that follows the
//! physical blocks of the source without decoding much more.
use vstd::prelude::*;

use crate::error::Error;
use crate::layout::min_of;
use crate::model::{ceil_div, div_ceil, lemma_ceil_div};

verus! {

/// The most tiles that a policy looks at.
pub const MAX_TILES: usize = 16384;

/// How much memory a reader needs for a window of all selected bands.
pub trait ReadBound {
    /// The bytes for a window of this width and height, or why there is no bound.
    spec fn bound(&self, width: int, height: int) -> Result<usize, Error>;

    fn read_buffer_bound(&self, width: usize, height: usize) -> (r: Result<usize, Error>)
        ensures
            r == self.bound(width as int, height as int),
    ;
}

/// A reader that needs its output only: a double and a validity byte for each sample.
#[derive(Clone, Copy, Debug, PartialEq, Eq, Structural)]
pub struct PlainReader {
    pub bands: usize,
}

impl ReadBound for PlainReader {
    open spec fn bound(&self, width: int, height: int) -> Result<usize, Error> {
        if width * height > usize::MAX || width * height * self.bands > usize::MAX || width * height
            * self.bands * 9 > usize::MAX {
            Err(Error::SourceWindowOverflow)
        } else {
            Ok((width * height * self.bands * 9) as usize)
        }
    }

    fn read_buffer_bound(&self, width: usize, height: usize) -> (r: Result<usize, Error>) {
        let cells: usize = match width.checked_mul(height) {
            Some(cells) => cells,
            None => return Err(Error::SourceWindowOverflow),
        };
        let samples: usize = match cells.checked_mul(self.bands) {
            Some(samples) => samples,
            None => return Err(Error::SourceWindowOverflow),
        };
        match samples.checked_mul(9) {
            Some(bytes) => Ok(bytes),
            None => Err(Error::SourceWindowOverflow),
        }
    }
}

/// Physical-window policy receipt. Incidents count native data-block/window
/// intersections, not codec calls or physical byte transfers.
#[derive(Debug)]
pub struct WindowPolicyCandidate {
    pub edge: usize,
    pub windows: usize,
    pub decoded_cells: u64,
    pub data_block_incidents: u64,
    pub read_buffer_bound_bytes: usize,
    pub eligible: bool,
    pub reason: String,
}

#[derive(Debug)]
pub struct WindowPolicyDecision {
    pub requested_edge: usize,
    pub selected_edge: usize,
    pub planner_capacity_bound_bytes: usize,
    pub candidates: Vec<WindowPolicyCandidate>,
}

/// A tile: its row and its column.
pub type Tile = (usize, usize);

pub open spec fn supported_edge(edge: int) -> bool {
    edge == 32 || edge == 64 || edge == 128 || edge == 256 || edge == 512
}

/// The `k`-th supported edge.
pub open spec fn edge_of(k: int) -> int {
    if k == 0 {
        32
    } else if k == 1 {
        64
    } else if k == 2 {
        128
    } else if k == 3 {
        256
    } else {
        512
    }
}

pub open spec fn power_of_two(n: int) -> bool
    decreases n,
{
    n == 1 || n > 1 && n % 2 == 0 && power_of_two(n / 2)
}

/// Every selected band is stored in square blocks whose side is a power of two.
pub open spec fn square_layout(blocks: Seq<(usize, usize)>, indices: Seq<usize>) -> bool {
    forall|i: int| 0 <= i < indices.len() ==> square_block(blocks[#[trigger] indices[i] as int])
}

pub open spec fn square_block(block: (usize, usize)) -> bool {
    block.0 == block.1 && power_of_two(block.0 as int)
}

/// The widest selected block, up to 512, and at least `edge`.
pub open spec fn physical_edge(
    blocks: Seq<(usize, usize)>,
    indices: Seq<usize>,
    edge: int,
) -> int
    decreases indices.len(),
{
    if indices.len() == 0 {
        edge
    } else {
        let rest = physical_edge(blocks, indices.drop_last(), edge);
        let block = min_of(blocks[indices.last() as int].0 as int, 512);
        if block > rest {
            block
        } else {
            rest
        }
    }
}

/// The tile of edge `edge` that holds a tile of edge `requested`.
pub open spec fn coarse(tile: Tile, requested: int, edge: int) -> Tile {
    ((tile.0 * requested / edge) as usize, (tile.1 * requested / edge) as usize)
}

pub open spec fn tile_before(a: Tile, b: Tile) -> bool {
    a.0 < b.0 || a.0 == b.0 && a.1 < b.1
}

/// `tiles` are the tiles of edge `edge` that hold an occupied one: by row, each row by column,
/// each once.
pub open spec fn windows_of(
    tiles: Seq<Tile>,
    occupied: Seq<Tile>,
    requested: int,
    edge: int,
) -> bool {
    &&& forall|i: int, j: int| 0 <= i < j < tiles.len() ==> tile_before(tiles[i], tiles[j])
    &&& forall|i: int|
        0 <= i < occupied.len() ==> tiles.contains(coarse(#[trigger] occupied[i], requested, edge))
    &&& forall|j: int| 0 <= j < tiles.len() ==> held(#[trigger] tiles[j], occupied, requested, edge)
}

/// Some occupied tile lies in `tile`.
pub open spec fn held(tile: Tile, occupied: Seq<Tile>, requested: int, edge: int) -> bool {
    exists|i: int| 0 <= i < occupied.len() && coarse(#[trigger] occupied[i], requested, edge) == tile
}

/// The tiles of edge `edge` that hold an occupied one, in order.
pub open spec fn windows(occupied: Seq<Tile>, requested: int, edge: int) -> Seq<Tile> {
    choose|tiles: Seq<Tile>| #[trigger] windows_of(tiles, occupied, requested, edge)
}

/// There is one such list.
pub proof fn windows_are_unique(
    a: Seq<Tile>,
    b: Seq<Tile>,
    occupied: Seq<Tile>,
    requested: int,
    edge: int,
)
    requires
        windows_of(a, occupied, requested, edge),
        windows_of(b, occupied, requested, edge),
    ensures
        a == b,
{
    assert forall|t: Tile| #[trigger] a.contains(t) <==> b.contains(t) by {
        if a.contains(t) {
            let j = a.index_of(t);
            assert(held(a[j], occupied, requested, edge));
        }
        if b.contains(t) {
            let j = b.index_of(t);
            assert(held(b[j], occupied, requested, edge));
        }
    }
    lemma_same_tiles(a, b);
}

proof fn lemma_same_tiles(a: Seq<Tile>, b: Seq<Tile>)
    requires
        forall|i: int, j: int| 0 <= i < j < a.len() ==> tile_before(a[i], a[j]),
        forall|i: int, j: int| 0 <= i < j < b.len() ==> tile_before(b[i], b[j]),
        forall|t: Tile| #[trigger] a.contains(t) <==> b.contains(t),
    ensures
        a == b,
    decreases a.len(),
{
    if a.len() == 0 {
        if b.len() > 0 {
            assert(b.contains(b[0]));
            assert(a.contains(b[0]));
        }
        assert(a =~= b);
    } else {
        assert(a.contains(a.last()));
        assert(b.contains(a.last()));
        let j = b.index_of(a.last());
        assert(b.contains(b.last()));
        assert(a.contains(b.last()));
        let i = a.index_of(b.last());
        assert(a.last() == b.last()) by {
            if j < b.len() - 1 {
                assert(tile_before(b[j], b.last()));
                if i < a.len() - 1 {
                    assert(tile_before(a[i], a.last()));
                }
            }
        }
        let c = a.drop_last();
        let e = b.drop_last();
        assert forall|t: Tile| #[trigger] c.contains(t) <==> e.contains(t) by {
            if c.contains(t) {
                let k = c.index_of(t);
                assert(a[k] == t);
                assert(tile_before(t, a.last()));
                assert(a.contains(t));
                assert(b.contains(t));
                let m = b.index_of(t);
                assert(m < b.len() - 1);
                assert(e[m] == t);
            }
            if e.contains(t) {
                let k = e.index_of(t);
                assert(b[k] == t);
                assert(tile_before(t, b.last()));
                assert(b.contains(t));
                assert(a.contains(t));
                let m = a.index_of(t);
                assert(m < a.len() - 1);
                assert(c[m] == t);
            }
        }
        lemma_same_tiles(c, e);
        assert(a =~= c.push(a.last()));
        assert(b =~= e.push(b.last()));
    }
}

/// The cells of a tile: left, top, width and height, cut at the edge of the grid.
pub open spec fn window_of(tile: Tile, edge: int, width: int, height: int) -> (int, int, int, int) {
    let x = tile.1 * edge;
    let y = tile.0 * edge;
    (x, y, min_of(edge, width - x), min_of(edge, height - y))
}

pub open spec fn cells_of(tiles: Seq<Tile>, edge: int, width: int, height: int) -> int
    decreases tiles.len(),
{
    if tiles.len() == 0 {
        0
    } else {
        let w = window_of(tiles.last(), edge, width, height);
        cells_of(tiles.drop_last(), edge, width, height) + w.2 * w.3
    }
}

/// How many blocks of a band a window touches.
pub open spec fn incidents(window: (int, int, int, int), block: (usize, usize)) -> int {
    ((window.0 + window.2 - 1) / block.0 as int - window.0 / block.0 as int + 1) * ((window.1
        + window.3 - 1) / block.1 as int - window.1 / block.1 as int + 1)
}

pub open spec fn window_incidents(
    window: (int, int, int, int),
    blocks: Seq<(usize, usize)>,
    indices: Seq<usize>,
) -> int
    decreases indices.len(),
{
    if indices.len() == 0 {
        0
    } else {
        window_incidents(window, blocks, indices.drop_last()) + incidents(
            window,
            blocks[indices.last() as int],
        )
    }
}

pub open spec fn incidents_of(
    tiles: Seq<Tile>,
    edge: int,
    width: int,
    height: int,
    blocks: Seq<(usize, usize)>,
    indices: Seq<usize>,
) -> int
    decreases tiles.len(),
{
    if tiles.len() == 0 {
        0
    } else {
        incidents_of(tiles.drop_last(), edge, width, height, blocks, indices) + window_incidents(
            window_of(tiles.last(), edge, width, height),
            blocks,
            indices,
        )
    }
}

/// The largest bound of the windows, or the first refusal.
pub open spec fn bound_of<B: ReadBound>(
    reader: &B,
    tiles: Seq<Tile>,
    edge: int,
    width: int,
    height: int,
) -> Result<usize, Error>
    decreases tiles.len(),
{
    if tiles.len() == 0 {
        Ok(0)
    } else {
        let w = window_of(tiles.last(), edge, width, height);
        match bound_of(reader, tiles.drop_last(), edge, width, height) {
            Err(e) => Err(e),
            Ok(rest) => match reader.bound(w.2, w.3) {
                Err(e) => Err(e),
                Ok(bytes) => Ok(
                    if bytes > rest {
                        bytes
                    } else {
                        rest
                    },
                ),
            },
        }
    }
}

/// Put a tile in its place, unless it is there.
fn insert_tile(tiles: &mut Vec<Tile>, tile: Tile)
    requires
        forall|i: int, j: int|
            0 <= i < j < old(tiles)@.len() ==> tile_before(old(tiles)@[i], old(tiles)@[j]),
    ensures
        forall|i: int, j: int|
            0 <= i < j < final(tiles)@.len() ==> tile_before(final(tiles)@[i], final(tiles)@[j]),
        forall|t: Tile| #[trigger]
            final(tiles)@.contains(t) <==> t == tile || old(tiles)@.contains(t),
        final(tiles)@.len() <= old(tiles)@.len() + 1,
{
    let ghost had = tiles@;
    let mut at: usize = 0;
    while at < tiles.len() && (tiles[at].0 < tile.0 || tiles[at].0 == tile.0 && tiles[at].1
        < tile.1)
        invariant
            at <= tiles@.len(),
            tiles@ == had,
            forall|k: int| 0 <= k < at ==> tile_before(#[trigger] tiles@[k], tile),
        decreases tiles@.len() - at,
    {
        at += 1;
    }
    if at < tiles.len() && tiles[at].0 == tile.0 && tiles[at].1 == tile.1 {
        assert(tiles@[at as int] == tile);
        return ;
    }
    tiles.insert(at, tile);
    proof {
        let after = tiles@;
        assert forall|i: int, j: int| 0 <= i < j < after.len() implies tile_before(
            after[i],
            after[j],
        ) by {
            if at < had.len() {
                assert(tile_before(tile, had[at as int]));
            }
            if i == at && j > at + 1 {
                assert(tile_before(had[at as int], had[j - 1]));
            }
        }
        assert forall|t: Tile| #[trigger] after.contains(t) <==> t == tile || had.contains(t) by {
            if had.contains(t) {
                let k = had.index_of(t);
                assert(after[if k < at {
                    k
                } else {
                    k + 1
                }] == t);
            }
            assert(after[at as int] == tile);
            if after.contains(t) && t != tile {
                let k = after.index_of(t);
                assert(had[if k < at {
                    k
                } else {
                    k - 1
                }] == t);
            }
        }
    }
}

/// An occupied tile lies in the grid, and so does every tile that holds it.
pub open spec fn tile_inside(tile: Tile, edge: int, width: int, height: int) -> bool {
    tile.1 * edge < width && tile.0 * edge < height
}

proof fn lemma_coarse(tile: Tile, requested: int, edge: int, width: int, height: int)
    requires
        0 < requested <= edge,
        tile_inside(tile, requested, width, height),
        0 < width <= usize::MAX,
        0 < height <= usize::MAX,
    ensures
        0 <= tile.0 * requested / edge <= tile.0 * requested < height,
        0 <= tile.1 * requested / edge <= tile.1 * requested < width,
        tile_inside(coarse(tile, requested, edge), edge, width, height),
{
    let a = tile.0 * requested;
    let b = tile.1 * requested;
    assert(a >= 0 && b >= 0) by (nonlinear_arith)
        requires
            a == tile.0 * requested,
            b == tile.1 * requested,
            requested > 0,
    ;
    vstd::arithmetic::div_mod::lemma_fundamental_div_mod(a, edge);
    vstd::arithmetic::div_mod::lemma_fundamental_div_mod(b, edge);
    let p = a / edge;
    let q = b / edge;
    assert(0 <= p && p <= a && p * edge <= a) by (nonlinear_arith)
        requires
            edge > 0,
            a >= 0,
            a == edge * p + a % edge,
            0 <= a % edge < edge,
    ;
    assert(0 <= q && q <= b && q * edge <= b) by (nonlinear_arith)
        requires
            edge > 0,
            b >= 0,
            b == edge * q + b % edge,
            0 <= b % edge < edge,
    ;
}

/// The windows of one edge, in order.
fn coarse_tiles(
    occupied: &[Tile],
    requested: usize,
    edge: usize,
    width: usize,
    height: usize,
) -> (r: Vec<Tile>)
    requires
        0 < requested <= edge,
        occupied@.len() > 0 ==> width > 0 && height > 0,
        forall|i: int|
            0 <= i < occupied@.len() ==> tile_inside(
                #[trigger] occupied@[i],
                requested as int,
                width as int,
                height as int,
            ),
    ensures
        r@ == windows(occupied@, requested as int, edge as int),
        windows_of(r@, occupied@, requested as int, edge as int),
        r@.len() <= occupied@.len(),
        forall|j: int|
            0 <= j < r@.len() ==> tile_inside(
                #[trigger] r@[j],
                edge as int,
                width as int,
                height as int,
            ),
{
    let mut tiles: Vec<Tile> = Vec::new();
    let mut i: usize = 0;
    let ghost req = requested as int;
    let ghost e = edge as int;
    while i < occupied.len()
        invariant
            i <= occupied@.len(),
            req == requested,
            e == edge,
            0 < requested <= edge,
            occupied@.len() > 0 ==> width > 0 && height > 0,
            tiles@.len() <= i,
            forall|k: int|
                0 <= k < occupied@.len() ==> tile_inside(
                    #[trigger] occupied@[k],
                    req,
                    width as int,
                    height as int,
                ),
            forall|a: int, b: int| 0 <= a < b < tiles@.len() ==> tile_before(tiles@[a], tiles@[b]),
            forall|k: int| 0 <= k < i ==> tiles@.contains(coarse(#[trigger] occupied@[k], req, e)),
            forall|j: int| 0 <= j < tiles@.len() ==> held(#[trigger] tiles@[j], occupied@, req, e),
        decreases occupied@.len() - i,
    {
        let tile: Tile = occupied[i];
        proof {
            assert(tile_inside(occupied@[i as int], req, width as int, height as int));
            lemma_coarse(tile, req, e, width as int, height as int);
        }
        let big: Tile = (tile.0 * requested / edge, tile.1 * requested / edge);
        let ghost had = tiles@;
        insert_tile(&mut tiles, big);
        proof {
            assert(big == coarse(occupied@[i as int], req, e));
            assert(held(big, occupied@, req, e));
            assert forall|j: int| 0 <= j < tiles@.len() implies held(
                #[trigger] tiles@[j],
                occupied@,
                req,
                e,
            ) by {
                assert(tiles@.contains(tiles@[j]));
                if tiles@[j] != big {
                    let k = had.index_of(tiles@[j]);
                    assert(held(had[k], occupied@, req, e));
                }
            }
            assert forall|k: int| 0 <= k < i + 1 implies tiles@.contains(
                coarse(#[trigger] occupied@[k], req, e),
            ) by {
                if k < i {
                    assert(had.contains(coarse(occupied@[k], req, e)));
                }
            }
        }
        i += 1;
    }
    proof {
        assert(windows_of(tiles@, occupied@, req, e));
        windows_are_unique(tiles@, windows(occupied@, req, e), occupied@, req, e);
        assert forall|j: int| 0 <= j < tiles@.len() implies tile_inside(
            #[trigger] tiles@[j],
            e,
            width as int,
            height as int,
        ) by {
            assert(held(tiles@[j], occupied@, req, e));
            let k = choose|k: int|
                0 <= k < occupied@.len() && coarse(#[trigger] occupied@[k], req, e) == tiles@[j];
            lemma_coarse(occupied@[k], req, e, width as int, height as int);
        }
    }
    tiles
}

proof fn lemma_spans(x: int, w: int, block: int)
    requires
        0 <= x,
        1 <= w,
        1 <= block,
    ensures
        1 <= (x + w - 1) / block - x / block + 1 <= w,
        0 <= x / block <= x,
        0 <= (x + w - 1) / block <= x + w - 1,
{
    vstd::arithmetic::div_mod::lemma_fundamental_div_mod(x, block);
    vstd::arithmetic::div_mod::lemma_fundamental_div_mod(x + w - 1, block);
    let p = x / block;
    let q = (x + w - 1) / block;
    assert(p <= q && q - p <= w - 1 && 0 <= p <= x && q <= x + w - 1) by (nonlinear_arith)
        requires
            block >= 1,
            w >= 1,
            x >= 0,
            x == block * p + x % block,
            0 <= x % block < block,
            x + w - 1 == block * q + (x + w - 1) % block,
            0 <= (x + w - 1) % block < block,
    ;
}

proof fn lemma_incidents(window: (int, int, int, int), block: (usize, usize))
    requires
        0 <= window.0,
        0 <= window.1,
        1 <= window.2 <= 512,
        1 <= window.3 <= 512,
        block.0 > 0,
        block.1 > 0,
    ensures
        0 <= incidents(window, block) <= 262144,
{
    lemma_spans(window.0, window.2, block.0 as int);
    lemma_spans(window.1, window.3, block.1 as int);
    let a = (window.0 + window.2 - 1) / block.0 as int - window.0 / block.0 as int + 1;
    let b = (window.1 + window.3 - 1) / block.1 as int - window.1 / block.1 as int + 1;
    assert(0 <= a * b <= 262144) by (nonlinear_arith)
        requires
            1 <= a <= 512,
            1 <= b <= 512,
    ;
}

proof fn lemma_window(tile: Tile, edge: int, width: int, height: int)
    requires
        1 <= edge <= 512,
        tile_inside(tile, edge, width, height),
    ensures
        ({
            let w = window_of(tile, edge, width, height);
            &&& 0 <= w.0
            &&& 0 <= w.1
            &&& 1 <= w.2 <= 512
            &&& 1 <= w.3 <= 512
            &&& 0 <= w.2 * w.3 <= 262144
            &&& w.0 + w.2 <= width
            &&& w.1 + w.3 <= height
        }),
{
    let w = window_of(tile, edge, width, height);
    assert(0 <= w.0 && 0 <= w.1) by (nonlinear_arith)
        requires
            w.0 == tile.1 * edge,
            w.1 == tile.0 * edge,
            edge >= 1,
    ;
    let c = w.2;
    let d = w.3;
    assert(0 <= c * d <= 262144) by (nonlinear_arith)
        requires
            1 <= c <= 512,
            1 <= d <= 512,
    ;
}

/// The blocks that a window touches, over the selected bands.
fn count_incidents(
    x: usize,
    y: usize,
    w: usize,
    h: usize,
    blocks: &[(usize, usize)],
    indices: &[usize],
) -> (r: u64)
    requires
        1 <= w <= 512,
        1 <= h <= 512,
        x + w <= usize::MAX,
        y + h <= usize::MAX,
        indices@.len() <= 64,
        forall|i: int| 0 <= i < indices@.len() ==> (#[trigger] indices@[i]) < blocks@.len(),
        forall|i: int| 0 <= i < indices@.len() ==> blocks@[#[trigger] indices@[i] as int].0 > 0,
        forall|i: int| 0 <= i < indices@.len() ==> blocks@[#[trigger] indices@[i] as int].1 > 0,
    ensures
        r == window_incidents((x as int, y as int, w as int, h as int), blocks@, indices@),
        r <= 16777216,
{
    let ghost window = (x as int, y as int, w as int, h as int);
    let mut total: u64 = 0;
    let mut i: usize = 0;
    while i < indices.len()
        invariant
            i <= indices@.len() <= 64,
            window == (x as int, y as int, w as int, h as int),
            1 <= w <= 512,
            1 <= h <= 512,
            x + w <= usize::MAX,
            y + h <= usize::MAX,
            forall|k: int| 0 <= k < indices@.len() ==> (#[trigger] indices@[k]) < blocks@.len(),
            forall|k: int| 0 <= k < indices@.len() ==> blocks@[#[trigger] indices@[k] as int].0 > 0,
            forall|k: int| 0 <= k < indices@.len() ==> blocks@[#[trigger] indices@[k] as int].1 > 0,
            total == window_incidents(window, blocks@, indices@.take(i as int)),
            total <= i * 262144,
        decreases indices@.len() - i,
    {
        let block: (usize, usize) = blocks[indices[i]];
        proof {
            let part = indices@.take(i + 1);
            assert(part.drop_last() =~= indices@.take(i as int));
            assert(part.last() == indices@[i as int]);
            lemma_incidents(window, block);
            lemma_spans(x as int, w as int, block.0 as int);
            lemma_spans(y as int, h as int, block.1 as int);
        }
        let across: usize = (x + w - 1) / block.0 - x / block.0 + 1;
        let down: usize = (y + h - 1) / block.1 - y / block.1 + 1;
        let count: u64 = across as u64 * down as u64;
        total = total + count;
        i += 1;
    }
    assert(indices@.take(indices@.len() as int) =~= indices@);
    total
}

/// What the windows of one edge cost.
struct Measure {
    cells: u64,
    incidents: u64,
    bound: Result<usize, Error>,
}

fn measure<B: ReadBound>(
    reader: &B,
    tiles: &[Tile],
    edge: usize,
    width: usize,
    height: usize,
    blocks: &[(usize, usize)],
    indices: &[usize],
) -> (r: Measure)
    requires
        1 <= edge <= 512,
        tiles@.len() <= MAX_TILES,
        indices@.len() <= 64,
        forall|i: int| 0 <= i < indices@.len() ==> (#[trigger] indices@[i]) < blocks@.len(),
        forall|i: int| 0 <= i < indices@.len() ==> blocks@[#[trigger] indices@[i] as int].0 > 0,
        forall|i: int| 0 <= i < indices@.len() ==> blocks@[#[trigger] indices@[i] as int].1 > 0,
        forall|j: int|
            0 <= j < tiles@.len() ==> tile_inside(
                #[trigger] tiles@[j],
                edge as int,
                width as int,
                height as int,
            ),
    ensures
        r.cells == cells_of(tiles@, edge as int, width as int, height as int),
        r.incidents == incidents_of(
            tiles@,
            edge as int,
            width as int,
            height as int,
            blocks@,
            indices@,
        ),
        r.bound == bound_of(reader, tiles@, edge as int, width as int, height as int),
        r.cells <= MAX_TILES * 262144,
{
    let mut cells: u64 = 0;
    let mut touched: u64 = 0;
    let mut bound: Result<usize, Error> = Ok(0);
    let mut j: usize = 0;
    let ghost e = edge as int;
    let ghost gw = width as int;
    let ghost gh = height as int;
    while j < tiles.len()
        invariant
            j <= tiles@.len() <= MAX_TILES,
            e == edge,
            gw == width,
            gh == height,
            1 <= edge <= 512,
            indices@.len() <= 64,
            forall|k: int| 0 <= k < indices@.len() ==> (#[trigger] indices@[k]) < blocks@.len(),
            forall|k: int| 0 <= k < indices@.len() ==> blocks@[#[trigger] indices@[k] as int].0 > 0,
            forall|k: int| 0 <= k < indices@.len() ==> blocks@[#[trigger] indices@[k] as int].1 > 0,
            forall|k: int| 0 <= k < tiles@.len() ==> tile_inside(#[trigger] tiles@[k], e, gw, gh),
            cells == cells_of(tiles@.take(j as int), e, gw, gh),
            cells <= j * 262144,
            touched == incidents_of(tiles@.take(j as int), e, gw, gh, blocks@, indices@),
            touched <= j * 16777216,
            bound == bound_of(reader, tiles@.take(j as int), e, gw, gh),
        decreases tiles@.len() - j,
    {
        let tile: Tile = tiles[j];
        proof {
            assert(tile_inside(tiles@[j as int], e, gw, gh));
            lemma_window(tile, e, gw, gh);
            let part = tiles@.take(j + 1);
            assert(part.drop_last() =~= tiles@.take(j as int));
            assert(part.last() == tile);
        }
        let x: usize = tile.1 * edge;
        let y: usize = tile.0 * edge;
        let w: usize = if edge <= width - x {
            edge
        } else {
            width - x
        };
        let h: usize = if edge <= height - y {
            edge
        } else {
            height - y
        };
        assert(window_of(tile, e, gw, gh) == (x as int, y as int, w as int, h as int));
        cells = cells + w as u64 * h as u64;
        if let Ok(rest) = bound {
            bound = match reader.read_buffer_bound(w, h) {
                Ok(bytes) => Ok(
                    if bytes > rest {
                        bytes
                    } else {
                        rest
                    },
                ),
                Err(error) => Err(error),
            };
        }
        touched = touched + count_incidents(x, y, w, h, blocks, indices);
        j += 1;
    }
    assert(tiles@.take(tiles@.len() as int) =~= tiles@);
    Measure { cells, incidents: touched, bound }
}

/// A larger edge is looked at only where the selected blocks are square, and not beyond them.
pub open spec fn tried(
    edge: int,
    requested: int,
    blocks: Seq<(usize, usize)>,
    indices: Seq<usize>,
) -> bool {
    edge == requested || edge > requested && square_layout(blocks, indices) && edge
        <= physical_edge(blocks, indices, requested)
}

/// The edges among the first `k` supported ones that are looked at.
pub open spec fn tried_edges(
    k: nat,
    requested: int,
    blocks: Seq<(usize, usize)>,
    indices: Seq<usize>,
) -> Seq<int>
    decreases k,
{
    if k == 0 {
        Seq::empty()
    } else {
        let rest = tried_edges((k - 1) as nat, requested, blocks, indices);
        if tried(edge_of(k - 1), requested, blocks, indices) {
            rest.push(edge_of(k - 1))
        } else {
            rest
        }
    }
}

/// What a policy is asked about.
pub struct WindowQuery<'a> {
    pub width: usize,
    pub height: usize,
    /// Block width and height of each band of the source.
    pub blocks: &'a [(usize, usize)],
    /// The most bands that the reader reads at once.
    pub max_read_bands: usize,
    pub requested_edge: usize,
    pub indices: &'a [usize],
    pub occupied: &'a [Tile],
    pub max_bytes: usize,
}

impl<'a> WindowQuery<'a> {
    /// Why there is no decision, if there is none, before any bound is asked for.
    pub open spec fn refusal(&self) -> Option<Error> {
        let req = self.requested_edge as int;
        if !supported_edge(req) {
            Some(Error::WindowEdge)
        } else if !(self.occupied@.len() <= MAX_TILES && 0 < self.indices@.len() <= min_of(
            self.max_read_bands as int,
            64,
        )) {
            Some(Error::WindowPolicyBudget)
        } else if exists|i: int|
            0 <= i < self.indices@.len() && #[trigger] self.indices@[i] >= self.blocks@.len()
                && self.sound_before(i) {
            Some(Error::WindowBand)
        } else if !self.sound_before(self.indices@.len() as int) {
            Some(Error::WindowBlock)
        } else if exists|i: int|
            0 <= i < self.occupied@.len() && !tile_inside(
                #[trigger] self.occupied@[i],
                req,
                self.width as int,
                self.height as int,
            ) {
            Some(Error::WindowTile)
        } else {
            None
        }
    }

    /// The first `n` selected bands are there, in blocks that have cells.
    pub open spec fn sound_before(&self, n: int) -> bool {
        forall|i: int| 0 <= i < n ==> self.sound(#[trigger] self.indices@[i])
    }

    pub open spec fn sound(&self, band: usize) -> bool {
        &&& band < self.blocks@.len()
        &&& self.blocks@[band as int].0 > 0
        &&& self.blocks@[band as int].1 > 0
    }

    /// The windows of one edge.
    pub open spec fn windows_at(&self, edge: int) -> Seq<Tile> {
        windows(self.occupied@, self.requested_edge as int, edge)
    }

    pub open spec fn cells_at(&self, edge: int) -> int {
        cells_of(self.windows_at(edge), edge, self.width as int, self.height as int)
    }

    pub open spec fn incidents_at(&self, edge: int) -> int {
        incidents_of(
            self.windows_at(edge),
            edge,
            self.width as int,
            self.height as int,
            self.blocks@,
            self.indices@,
        )
    }

    pub open spec fn bound_at<B: ReadBound>(&self, reader: &B, edge: int) -> Result<usize, Error> {
        bound_of(reader, self.windows_at(edge), edge, self.width as int, self.height as int)
    }

    /// Whether a window of this edge is used, and why.
    pub open spec fn verdict<B: ReadBound>(&self, reader: &B, edge: int) -> (bool, Seq<char>) {
        let req = self.requested_edge as int;
        match self.bound_at(reader, edge) {
            Err(_) => (false, "optional_read_bound_refused"@),
            Ok(bound) => if edge == req {
                (bound <= self.max_bytes, "requested_baseline"@)
            } else if bound > self.max_bytes {
                (false, "read_buffer_budget"@)
            } else if self.cells_at(edge) > self.cells_at(req) * 2 {
                (false, "sparse_logical_overread"@)
            } else if self.incidents_at(edge) > self.incidents_at(req) {
                (false, "physical_block_incident_increase"@)
            } else if self.windows_at(edge).len() >= self.windows_at(req).len() {
                (false, "no_window_reduction"@)
            } else {
                (true, "bounded_physical_coalescing"@)
            },
        }
    }

    /// What is reported of one edge.
    pub open spec fn reported<B: ReadBound>(
        &self,
        reader: &B,
        edge: int,
        c: WindowPolicyCandidate,
    ) -> bool {
        &&& c.edge == edge
        &&& c.windows == self.windows_at(edge).len()
        &&& c.decoded_cells == self.cells_at(edge)
        &&& c.data_block_incidents == self.incidents_at(edge)
        &&& c.read_buffer_bound_bytes == match self.bound_at(reader, edge) {
            Ok(bound) => bound,
            Err(_) => usize::MAX,
        }
        &&& (c.eligible, c.reason@) == self.verdict(reader, edge)
    }

    pub open spec fn edges(&self, k: nat) -> Seq<int> {
        tried_edges(k, self.requested_edge as int, self.blocks@, self.indices@)
    }

    /// The largest edge that is used, or the requested one.
    pub open spec fn selected<B: ReadBound>(&self, reader: &B, k: nat) -> int
        decreases k,
    {
        if k == 0 {
            self.requested_edge as int
        } else if tried(
            edge_of(k - 1),
            self.requested_edge as int,
            self.blocks@,
            self.indices@,
        ) && self.verdict(reader, edge_of(k - 1)).0 {
            edge_of(k - 1)
        } else {
            self.selected(reader, (k - 1) as nat)
        }
    }
}

fn is_power_of_two(n: usize) -> (r: bool)
    ensures
        r == power_of_two(n as int),
    decreases n,
{
    if n == 1 {
        true
    } else if n > 1 && n % 2 == 0 {
        is_power_of_two(n / 2)
    } else {
        false
    }
}

fn supported(k: usize) -> (r: usize)
    requires
        k < 5,
    ensures
        r == edge_of(k as int),
{
    match k {
        0 => 32,
        1 => 64,
        2 => 128,
        3 => 256,
        _ => 512,
    }
}

proof fn lemma_tile_inside(tile: Tile, edge: int, width: int, height: int)
    requires
        edge > 0,
        0 <= width,
        0 <= height,
    ensures
        tile_inside(tile, edge, width, height) <==> tile.1 < ceil_div(width, edge) && tile.0
            < ceil_div(height, edge),
{
    lemma_ceil_div(width, edge);
    lemma_ceil_div(height, edge);
}

/// Compare the edges.
fn choose_edge<'a, B: ReadBound>(
    reader: &B,
    query: &WindowQuery<'a>,
    physical: usize,
    square: bool,
) -> (r: Result<WindowPolicyDecision, Error>)
    requires
        query.refusal() is None,
        query.sound_before(query.indices@.len() as int),
        square == square_layout(query.blocks@, query.indices@),
        physical == physical_edge(query.blocks@, query.indices@, query.requested_edge as int),
    ensures
        match query.bound_at(reader, query.requested_edge as int) {
            Err(e) => r is Err && r->Err_0 == e,
            Ok(_) => {
                &&& r matches Ok(d)
                &&& d.requested_edge == query.requested_edge
                &&& d.selected_edge == query.selected(reader, 5)
                &&& d.planner_capacity_bound_bytes == query.occupied@.len() * 192 + 4096
                &&& d.candidates@.len() == query.edges(5).len()
                &&& forall|i: int|
                    0 <= i < d.candidates@.len() ==> query.reported(
                        reader,
                        query.edges(5)[i],
                        #[trigger] d.candidates@[i],
                    )
            },
        },
{
    let requested: usize = query.requested_edge;
    let mut selected: usize = requested;
    let mut candidates: Vec<WindowPolicyCandidate> = Vec::new();
    let mut k: usize = 0;
    proof {
        lemma_sound(query);
        lemma_occupied(query);
    }
    while k < 5
        invariant
            k <= 5,
            requested == query.requested_edge,
            query.refusal() is None,
            supported_edge(requested as int),
            query.occupied@.len() <= MAX_TILES,
            query.indices@.len() <= 64,
            query.occupied@.len() > 0 ==> query.width > 0 && query.height > 0,
            forall|i: int|
                0 <= i < query.indices@.len() ==> (#[trigger] query.indices@[i])
                    < query.blocks@.len(),
            forall|i: int|
                0 <= i < query.indices@.len() ==> query.blocks@[#[trigger] query.indices@[i]
                    as int].0 > 0,
            forall|i: int|
                0 <= i < query.indices@.len() ==> query.blocks@[#[trigger] query.indices@[i]
                    as int].1 > 0,
            forall|i: int|
                0 <= i < query.occupied@.len() ==> tile_inside(
                    #[trigger] query.occupied@[i],
                    requested as int,
                    query.width as int,
                    query.height as int,
                ),
            square == square_layout(query.blocks@, query.indices@),
            physical == physical_edge(query.blocks@, query.indices@, requested as int),
            selected == query.selected(reader, k as nat),
            candidates@.len() == query.edges(k as nat).len(),
            forall|i: int|
                0 <= i < candidates@.len() ==> query.reported(
                    reader,
                    query.edges(k as nat)[i],
                    #[trigger] candidates@[i],
                ),
            forall|i: int|
                0 <= i < candidates@.len() ==> (#[trigger] candidates@[i]).decoded_cells
                    <= MAX_TILES * 262144,
            edge_of(k - 1) >= requested && k > 0 ==> candidates@.len() > 0
                && query.edges(k as nat)[0] == requested && query.bound_at(
                reader,
                requested as int,
            ) is Ok,
            k == 0 || edge_of(k - 1) < requested ==> candidates@.len() == 0,
        decreases 5 - k,
    {
        let edge: usize = supported(k);
        let ghost before = candidates@;
        if edge == requested || edge > requested && square && edge <= physical {
            assert(tried(edge as int, requested as int, query.blocks@, query.indices@));
            let tiles = coarse_tiles(query.occupied, requested, edge, query.width, query.height);
            let cost = measure(
                reader,
                tiles.as_slice(),
                edge,
                query.width,
                query.height,
                query.blocks,
                query.indices,
            );
            let (bound, eligible, reason) = match cost.bound {
                Err(error) => if edge == requested {
                    return Err(error);
                } else {
                    (usize::MAX, false, "optional_read_bound_refused")
                },
                Ok(bound) => if edge == requested {
                    (bound, bound <= query.max_bytes, "requested_baseline")
                } else {
                    assert(candidates@.len() > 0);
                    assert(query.reported(reader, query.edges(k as nat)[0], candidates@[0]));
                    if bound > query.max_bytes {
                        (bound, false, "read_buffer_budget")
                    } else if cost.cells > candidates[0].decoded_cells * 2 {
                        (bound, false, "sparse_logical_overread")
                    } else if cost.incidents > candidates[0].data_block_incidents {
                        (bound, false, "physical_block_incident_increase")
                    } else if tiles.len() >= candidates[0].windows {
                        (bound, false, "no_window_reduction")
                    } else {
                        (bound, true, "bounded_physical_coalescing")
                    }
                },
            };
            if eligible {
                selected = edge;
            }
            candidates.push(
                WindowPolicyCandidate {
                    edge,
                    windows: tiles.len(),
                    decoded_cells: cost.cells,
                    data_block_incidents: cost.incidents,
                    read_buffer_bound_bytes: bound,
                    eligible,
                    reason: reason.to_owned(),
                },
            );
            proof {
                let old_edges = query.edges(k as nat);
                let edges = query.edges((k + 1) as nat);
                assert(edges == old_edges.push(edge as int));
                assert forall|i: int| 0 <= i < candidates@.len() implies query.reported(
                    reader,
                    edges[i],
                    #[trigger] candidates@[i],
                ) by {
                    if i < before.len() {
                        assert(query.reported(reader, old_edges[i], before[i]));
                    }
                }
            }
        } else {
            assert(!tried(edge as int, requested as int, query.blocks@, query.indices@));
            assert(query.edges((k + 1) as nat) == query.edges(k as nat));
        }
        k += 1;
    }
    Ok(
        WindowPolicyDecision {
            requested_edge: requested,
            selected_edge: selected,
            planner_capacity_bound_bytes: query.occupied.len() * 192 + 4096,
            candidates,
        },
    )
}

proof fn lemma_occupied<'a>(query: &WindowQuery<'a>)
    requires
        query.refusal() is None,
    ensures
        forall|i: int|
            0 <= i < query.occupied@.len() ==> tile_inside(
                #[trigger] query.occupied@[i],
                query.requested_edge as int,
                query.width as int,
                query.height as int,
            ),
        query.occupied@.len() > 0 ==> query.width > 0 && query.height > 0,
{
    if query.occupied@.len() > 0 {
        let tile = query.occupied@[0];
        assert(tile_inside(
            tile,
            query.requested_edge as int,
            query.width as int,
            query.height as int,
        ));
        let e = query.requested_edge as int;
        assert(tile.1 * e >= 0 && tile.0 * e >= 0) by (nonlinear_arith)
            requires
                e > 0,
        ;
    }
}

/// Select a direct-execution I/O edge from actual occupied base tiles (row, column).
/// This never changes the native grid, coverage weights or prepared index edge.
/// At most 16,384 input tiles and five candidate edges are examined. Promotion
/// requires a selected square physical-block layout, at most twice the logical decode cells,
/// fewer windows, no increase in data-block incidents, and a fitting read bound.
/// Caller owns geometry recompilation and any expression/reducer scratch bound.
pub fn select_window_edge<'a, B: ReadBound>(reader: &B, query: &WindowQuery<'a>) -> (r: Result<
    WindowPolicyDecision,
    Error,
>)
    ensures
        match query.refusal() {
            Some(e) => r is Err && r->Err_0 == e,
            None => match query.bound_at(reader, query.requested_edge as int) {
                Err(e) => r is Err && r->Err_0 == e,
                Ok(_) => {
                    &&& r matches Ok(d)
                    &&& d.requested_edge == query.requested_edge
                    &&& d.selected_edge == query.selected(reader, 5)
                    &&& d.planner_capacity_bound_bytes == query.occupied@.len() * 192 + 4096
                    &&& d.candidates@.len() == query.edges(5).len()
                    &&& forall|i: int|
                        0 <= i < d.candidates@.len() ==> query.reported(
                            reader,
                            query.edges(5)[i],
                            #[trigger] d.candidates@[i],
                        )
                },
            },
        },
{
    let requested: usize = query.requested_edge;
    if !(requested == 32 || requested == 64 || requested == 128 || requested == 256 || requested
        == 512) {
        return Err(Error::WindowEdge);
    }
    let most: usize = if query.max_read_bands < 64 {
        query.max_read_bands
    } else {
        64
    };
    if query.occupied.len() > MAX_TILES || query.indices.len() == 0 || query.indices.len() > most {
        return Err(Error::WindowPolicyBudget);
    }
    let mut physical: usize = requested;
    let mut square: bool = true;
    let mut i: usize = 0;
    while i < query.indices.len()
        invariant
            i <= query.indices@.len(),
            requested == query.requested_edge,
            query.sound_before(i as int),
            square == square_layout(query.blocks@, query.indices@.take(i as int)),
            physical == physical_edge(
                query.blocks@,
                query.indices@.take(i as int),
                requested as int,
            ),
            0 < query.indices@.len() <= min_of(query.max_read_bands as int, 64),
            supported_edge(requested as int),
            query.occupied@.len() <= MAX_TILES,
        decreases query.indices@.len() - i,
    {
        let band: usize = query.indices[i];
        if band >= query.blocks.len() {
            assert(query.indices@[i as int] >= query.blocks@.len());
            return Err(Error::WindowBand);
        }
        let block: (usize, usize) = query.blocks[band];
        if !(block.0 > 0 && block.1 > 0) {
            proof {
                assert(!query.sound(query.indices@[i as int]));
                assert forall|k: int|
                    0 <= k < query.indices@.len() && query.indices@[k] >= query.blocks@.len() implies
                    !query.sound_before(k) by {
                    assert(k >= i) by {
                        if k < i {
                            assert(query.sound(query.indices@[k]));
                        }
                    }
                    assert(k != i);
                    assert(!query.sound(query.indices@[i as int]));
                }
            }
            return Err(Error::WindowBlock);
        }
        proof {
            let part = query.indices@.take(i + 1);
            assert(part.drop_last() =~= query.indices@.take(i as int));
            assert(part.last() == band);
            assert(square_layout(query.blocks@, part) == (square_layout(
                query.blocks@,
                part.drop_last(),
            ) && square_block(block))) by {
                if square_layout(query.blocks@, part) {
                    assert(square_block(query.blocks@[part[i as int] as int]));
                    assert forall|k: int| 0 <= k < i implies square_block(
                        query.blocks@[#[trigger] part.drop_last()[k] as int],
                    ) by {
                        assert(square_block(query.blocks@[part[k] as int]));
                    }
                }
                if square_layout(query.blocks@, part.drop_last()) && square_block(block) {
                    assert forall|k: int| 0 <= k < part.len() implies square_block(
                        query.blocks@[#[trigger] part[k] as int],
                    ) by {
                        if k < i {
                            assert(square_block(query.blocks@[part.drop_last()[k] as int]));
                        }
                    }
                }
            }
            assert(query.sound(query.indices@[i as int]));
        }
        square = square && block.0 == block.1 && is_power_of_two(block.0);
        let side: usize = if block.0 < 512 {
            block.0
        } else {
            512
        };
        if side > physical {
            physical = side;
        }
        i += 1;
    }
    assert(query.indices@.take(query.indices@.len() as int) =~= query.indices@);
    let columns: usize = div_ceil(query.width, requested);
    let rows: usize = div_ceil(query.height, requested);
    let mut t: usize = 0;
    while t < query.occupied.len()
        invariant
            t <= query.occupied@.len(),
            requested == query.requested_edge,
            supported_edge(requested as int),
            query.sound_before(query.indices@.len() as int),
            query.occupied@.len() <= MAX_TILES,
            0 < query.indices@.len() <= min_of(query.max_read_bands as int, 64),
            columns == ceil_div(query.width as int, requested as int),
            rows == ceil_div(query.height as int, requested as int),
            forall|k: int|
                0 <= k < t ==> tile_inside(
                    #[trigger] query.occupied@[k],
                    requested as int,
                    query.width as int,
                    query.height as int,
                ),
        decreases query.occupied@.len() - t,
    {
        let tile: Tile = query.occupied[t];
        proof {
            lemma_tile_inside(tile, requested as int, query.width as int, query.height as int);
        }
        if !(tile.1 < columns && tile.0 < rows) {
            assert(!tile_inside(
                query.occupied@[t as int],
                requested as int,
                query.width as int,
                query.height as int,
            ));
            assert(query.refusal() == Some(Error::WindowTile)) by {
                lemma_sound(query);
            }
            return Err(Error::WindowTile);
        }
        t += 1;
    }
    proof {
        lemma_sound(query);
    }
    choose_edge(reader, query, physical, square)
}

proof fn lemma_sound<'a>(query: &WindowQuery<'a>)
    requires
        query.sound_before(query.indices@.len() as int),
    ensures
        forall|i: int|
            0 <= i < query.indices@.len() ==> (#[trigger] query.indices@[i]) < query.blocks@.len(),
        forall|i: int|
            0 <= i < query.indices@.len() ==> query.blocks@[#[trigger] query.indices@[i] as int].0
                > 0,
        forall|i: int|
            0 <= i < query.indices@.len() ==> query.blocks@[#[trigger] query.indices@[i] as int].1
                > 0,
{
    assert forall|i: int| 0 <= i < query.indices@.len() implies query.sound(
        #[trigger] query.indices@[i],
    ) by {}
}

/// A larger edge is only taken where it fits the byte limit, decodes at most twice the cells,
/// touches no more blocks and takes fewer windows than the requested one.
pub proof fn a_promotion_is_bounded<'a, B: ReadBound>(reader: &B, query: &WindowQuery<'a>)
    ensures
        ({
            let req = query.requested_edge as int;
            let edge = query.selected(reader, 5);
            edge == req || {
                &&& query.bound_at(reader, edge) is Ok
                &&& query.bound_at(reader, edge)->Ok_0 <= query.max_bytes
                &&& query.cells_at(edge) <= 2 * query.cells_at(req)
                &&& query.incidents_at(edge) <= query.incidents_at(req)
                &&& query.windows_at(edge).len() < query.windows_at(req).len()
                &&& square_layout(query.blocks@, query.indices@)
                &&& req < edge <= physical_edge(query.blocks@, query.indices@, req)
            }
        }),
{
    lemma_selected(reader, query, 5);
}

proof fn lemma_selected<'a, B: ReadBound>(reader: &B, query: &WindowQuery<'a>, k: nat)
    ensures
        ({
            let edge = query.selected(reader, k);
            edge == query.requested_edge || query.verdict(reader, edge).0 && tried(
                edge,
                query.requested_edge as int,
                query.blocks@,
                query.indices@,
            )
        }),
    decreases k,
{
    if k > 0 {
        lemma_selected(reader, query, (k - 1) as nat);
    }
}

} // verus!
