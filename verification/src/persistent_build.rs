//! Preparation of a persistent index. It is optional. Original mode keeps only summaries;
//! normalized mode explicitly duplicates native-resolution values and reports all duplicate bytes.
use vstd::prelude::*;

use crate::codec::{blake3_hash, blake3_of, hex_of, to_hex};
use crate::digits::{decimal_of, push_decimal, push_digit};
use crate::error::Error;
use crate::hierarchy::{a_child_is_a_node_below, children_of};
use crate::layout::{level_at, widen};
use crate::model::Grid;
use crate::persistent::{
    capabilities_ok, edge_ok, header_refusal, is_edge, BoundarySource, Header, SourceIdentity,
    BYTE_ORDER, FLAT_TILES, HEADER, HIERARCHY_TILES, MAX_PAIR_BYTES, NUMERICAL_CONTRACT, SCALAR,
    SUMMARIES,
};
use crate::persistent_page::Part;
use crate::text::{same, utf8};

verus! {

/// The most bytes that a builder may hold.
pub const BUILDER_BYTES: usize = 268435456;

pub const FLAT: &'static str = "flat";

pub const HIERARCHY: &'static str = "hierarchy";

pub const BAND_MAJOR: &'static str = "band_major";

pub const CELL_MAJOR: &'static str = "cell_major";

pub const BAND_GROUPS: &'static str = "band_groups_4";

/// How many bands a raw page of a layout holds, of `n` bands.
pub open spec fn group_of(layout: Seq<char>, n: int) -> Option<int> {
    if layout == BAND_MAJOR@ {
        Some(1)
    } else if layout == CELL_MAJOR@ {
        Some(n)
    } else if layout == BAND_GROUPS@ {
        Some(
            if n < 4 {
                n
            } else {
                4
            },
        )
    } else {
        None
    }
}

/// What a build request is refused for, or the bands of a group.
pub open spec fn request_of(backend: Seq<char>, tile_edge: int, grid: Grid, bands: int, layout: Seq<char>) -> Result<
    int,
    Error,
> {
    if backend != FLAT@ && backend != HIERARCHY@ {
        Err(Error::SummaryBackend)
    } else if !edge_ok(tile_edge) {
        Err(Error::BuildTileEdge)
    } else if !grid.valid() {
        Err(Error::GridShape)
    } else if !(1 <= bands <= 20) {
        Err(Error::SourceBands)
    } else {
        match group_of(layout, bands) {
            Some(group) => Ok(group),
            None => Err(Error::PreparedLayout),
        }
    }
}

/// Check a build request, and give the bands of a group.
pub fn check_request(backend: &str, tile_edge: usize, grid: &Grid, bands: usize, layout: &str) -> (r:
    Result<usize, Error>)
    ensures
        match request_of(backend@, tile_edge as int, *grid, bands as int, layout@) {
            Ok(group) => r == Ok::<usize, Error>(group as usize) && 1 <= group <= 20,
            Err(e) => r == Err::<usize, Error>(e),
        },
{
    if !same(backend, FLAT) && !same(backend, HIERARCHY) {
        return Err(Error::SummaryBackend);
    }
    if !is_edge(tile_edge) {
        return Err(Error::BuildTileEdge);
    }
    grid.validate()?;
    if bands == 0 || bands > 20 {
        return Err(Error::SourceBands);
    }
    if same(layout, BAND_MAJOR) {
        Ok(1)
    } else if same(layout, CELL_MAJOR) {
        Ok(bands)
    } else if same(layout, BAND_GROUPS) {
        Ok(
            if bands < 4 {
                bands
            } else {
                4
            },
        )
    } else {
        Err(Error::PreparedLayout)
    }
}

/// The block of one band of a source, in cells.
#[derive(Clone, Copy, Debug, PartialEq, Eq, Structural)]
pub struct Block {
    pub width: usize,
    pub height: usize,
}

/// Bytes that the builder holds beside a window.
pub open spec fn builder_extra(h: Header) -> int {
    h.tile_edge * h.tile_edge * h.band_group * 9 + h.summary_bytes() + 2 * HEADER
}

/// Every band is stored in whole rows of at most a tile's height, in a grid wider than a tile.
pub open spec fn in_stripes(h: Header, blocks: Seq<Block>) -> bool {
    &&& h.grid.width > h.tile_edge
    &&& forall|i: int|
        0 <= i < blocks.len() ==> (#[trigger] blocks[i]).width == h.grid.width && blocks[i].height
            <= h.tile_edge
}

/// What a build writes and holds.
#[derive(Clone, Copy, Debug, PartialEq, Eq, Structural)]
pub struct BuildPlan {
    pub index_bytes: u64,
    pub raw_bytes: u64,
    pub extra: usize,
    pub working_bytes: usize,
    pub striped: bool,
}

pub open spec fn raw_total(h: Header) -> int {
    if h.boundary_source == BoundarySource::Normalized {
        h.length_as(false)
    } else {
        0
    }
}

/// A window that needs `bound` bytes fits the builder.
pub open spec fn admitted(h: Header, bound: Result<usize, Error>) -> bool {
    bound matches Ok(b) && b + builder_extra(h) <= BUILDER_BYTES
}

/// What a build is refused for. `bound` is what a window of one tile needs.
pub open spec fn build_refusal(h: Header, bound: Result<usize, Error>) -> Option<Error> {
    match header_refusal(h) {
        Some(e) => Some(e),
        None => if h.length_as(true) + raw_total(h) > MAX_PAIR_BYTES {
            Some(Error::BuildOutput)
        } else {
            match bound {
                Err(e) => Some(e),
                Ok(b) => if b + builder_extra(h) > usize::MAX {
                    Some(Error::BuilderMemoryOverflow)
                } else if b + builder_extra(h) > BUILDER_BYTES {
                    Some(Error::BuilderMemory)
                } else {
                    None
                },
            }
        },
    }
}

/// Plan a build. `bound` is what a window of one tile needs, and `stripe` what one of whole rows
/// does. Striped sources already decode whole native rows: each row group is read once when it
/// fits, while the per-tile reduction order stays. A physical hint only changes access: values,
/// summaries and the format do not depend on it. Failure to take this optional buffer keeps tile
/// reads.
pub fn plan_build(
    h: &Header,
    blocks: &Vec<Block>,
    bound: Result<usize, Error>,
    stripe: Result<usize, Error>,
) -> (r: Result<BuildPlan, Error>)
    requires
        h.kind@ == SUMMARIES@,
    ensures
        match build_refusal(*h, bound) {
            Some(e) => r == Err::<BuildPlan, Error>(e),
            None => r == Ok::<BuildPlan, Error>(
                ({
                    let striped = in_stripes(*h, blocks@) && admitted(*h, stripe);
                    BuildPlan {
                        index_bytes: h.length_as(true) as u64,
                        raw_bytes: raw_total(*h) as u64,
                        extra: builder_extra(*h) as usize,
                        working_bytes: (builder_extra(*h) + if striped {
                            stripe->Ok_0 as int
                        } else {
                            bound->Ok_0 as int
                        }) as usize,
                        striped,
                    }
                }),
            ),
        },
{
    h.validate()?;
    let index_bytes: u64 = match h.file_length(true) {
        Some(n) => n,
        None => {
            assert(false);
            0
        },
    };
    let raw_bytes: u64 = match h.boundary_source {
        BoundarySource::Normalized => match h.file_length(false) {
            Some(n) => n,
            None => {
                return Err(Error::BuildOutput);
            },
        },
        BoundarySource::Original => 0,
    };
    if index_bytes + raw_bytes > MAX_PAIR_BYTES {
        return Err(Error::BuildOutput);
    }
    let page: usize = h.raw_size();
    let extra: usize = page - 32 + h.summary_size() + 2 * HEADER;
    assert(extra == builder_extra(*h));
    let window: usize = bound?;
    let working: usize = match window.checked_add(extra) {
        Some(n) => n,
        None => {
            return Err(Error::BuilderMemoryOverflow);
        },
    };
    if working > BUILDER_BYTES {
        return Err(Error::BuilderMemory);
    }
    let mut striped = h.grid.width > h.tile_edge;
    let mut i: usize = 0;
    while i < blocks.len()
        invariant
            i <= blocks@.len(),
            striped == (h.grid.width > h.tile_edge && forall|k: int|
                0 <= k < i ==> (#[trigger] blocks@[k]).width == h.grid.width && blocks@[k].height
                    <= h.tile_edge),
        decreases blocks.len() - i,
    {
        let b = blocks[i];
        if b.width != h.grid.width || b.height > h.tile_edge {
            striped = false;
        }
        i += 1;
    }
    if striped {
        if let Ok(needed) = stripe {
            if needed <= BUILDER_BYTES && needed + extra <= BUILDER_BYTES {
                return Ok(
                    BuildPlan {
                        index_bytes,
                        raw_bytes,
                        extra,
                        working_bytes: needed + extra,
                        striped: true,
                    },
                );
            }
        }
    }
    Ok(BuildPlan { index_bytes, raw_bytes, extra, working_bytes: working, striped: false })
}

/// The window that the cells of a tile are read in, and the part of it that is the tile.
#[derive(Clone, Copy, Debug, PartialEq, Eq, Structural)]
pub struct TileRead {
    pub x: usize,
    pub y: usize,
    pub width: usize,
    pub height: usize,
    /// The window is not the one of the tile before.
    pub fresh: bool,
    pub part: Part,
}

/// What is read for a tile: the tile by itself, or, from a striped source, its whole rows.
pub open spec fn reads_tile(h: Header, tile: int, striped: bool, r: TileRead) -> bool {
    let x = tile % h.across() * h.tile_edge;
    let y = tile / h.across() * h.tile_edge;
    let w = if x + h.tile_edge < h.grid.width {
        h.tile_edge as int
    } else {
        h.grid.width - x
    };
    let hh = if y + h.tile_edge < h.grid.height {
        h.tile_edge as int
    } else {
        h.grid.height - y
    };
    &&& r.y == y
    &&& r.height == hh
    &&& r.part.width == w
    &&& r.part.height == hh
    &&& 1 <= w <= h.tile_edge
    &&& 1 <= hh <= h.tile_edge
    &&& if striped {
        r.x == 0 && r.width == h.grid.width && r.part.stride == h.grid.width
            && r.part.column == x && r.fresh == (x == 0)
    } else {
        r.x == x && r.width == w && r.part.stride == w && r.part.column == 0 && r.fresh
    }
    &&& r.part.column + r.part.width <= r.part.stride
}

/// The cells of a tile, and the window that they are read in.
pub fn tile_read(h: &Header, tile: usize, striped: bool) -> (r: TileRead)
    requires
        h.shaped(),
        tile < h.tile_count(),
    ensures
        reads_tile(*h, tile as int, striped, r),
{
    let b = h.bounds(tile);
    let width: usize = b[2] - b[0];
    let height: usize = b[3] - b[1];
    if striped {
        TileRead {
            x: 0,
            y: b[1],
            width: h.grid.width,
            height,
            fresh: b[0] == 0,
            part: Part { stride: h.grid.width, column: b[0], width, height },
        }
    } else {
        TileRead {
            x: b[0],
            y: b[1],
            width,
            height,
            fresh: true,
            part: Part { stride: width, column: 0, width, height },
        }
    }
}

/// A finished pair has the lengths that were planned.
pub fn check_lengths(plan: BuildPlan, index: u64, raw: u64) -> (r: Result<(), Error>)
    ensures
        r == (if index == plan.index_bytes && raw == plan.raw_bytes {
            Ok::<(), Error>(())
        } else {
            Err(Error::BuildLength)
        }),
{
    if index == plan.index_bytes && raw == plan.raw_bytes {
        Ok(())
    } else {
        Err(Error::BuildLength)
    }
}

/// Append the decimal digits of a wide number.
fn push_wide(text: &mut String, value: u128)
    ensures
        final(text)@ == old(text)@ + decimal_of(value as nat),
    decreases value,
{
    let ghost before = text@;
    if value < 10 {
        push_digit(text, value as u8);
        assert(text@ =~= before + decimal_of(value as nat));
    } else {
        push_wide(text, value / 10);
        push_digit(text, (value % 10) as u8);
        assert(text@ =~= before + decimal_of(value as nat));
    }
}

/// The identity of a build: of its source, of when it began and of the process that makes it.
pub fn build_id(source_id: &str, nonce: u128, process: u32) -> (r: String)
    ensures
        r@ == hex_of(
            blake3_of(
                utf8(
                    source_id@ + ":"@ + decimal_of(nonce as nat) + ":"@ + decimal_of(process as nat),
                ),
            ),
        ),
        r@.len() == 64,
{
    let mut text: String = source_id.to_owned();
    text.append(":");
    push_wide(&mut text, nonce);
    text.append(":");
    push_decimal(&mut text, process as u64);
    to_hex(blake3_hash(text.as_str().as_bytes()).as_slice())
}

/// What a new index is made of.
pub struct NewIndex {
    pub grid: Grid,
    pub source_id: String,
    pub source_metadata: String,
    pub build_id: String,
    pub units: Vec<Option<String>>,
    pub source_identity: Option<SourceIdentity>,
}

/// A header of summaries that says what a build makes: its version goes by the identity of the
/// source, and its algorithm by the backend.
pub open spec fn made_for(
    h: Header,
    n: NewIndex,
    backend: Seq<char>,
    tile_edge: int,
    group: int,
    boundary: BoundarySource,
) -> bool {
    &&& h.version == (if n.source_identity is Some {
        2
    } else {
        1int
    })
    &&& h.kind@ == SUMMARIES@
    &&& h.numerical_contract@ == NUMERICAL_CONTRACT@
    &&& h.algorithm_version@ == (if backend == HIERARCHY@ {
        HIERARCHY_TILES@
    } else {
        FLAT_TILES@
    })
    &&& h.grid == n.grid
    &&& h.source_id == n.source_id
    &&& h.source_metadata == n.source_metadata
    &&& h.build_id == n.build_id
    &&& h.units == n.units
    &&& h.tile_edge == tile_edge
    &&& h.band_group == group
    &&& capabilities_ok(h.capabilities@)
    &&& h.byte_order@ == BYTE_ORDER@
    &&& h.scalar@ == SCALAR@
    &&& h.boundary_source == boundary
    &&& h.source_identity == n.source_identity
}

/// The statistics that an index serves.
fn capabilities() -> (r: Vec<String>)
    ensures
        capabilities_ok(r@),
{
    let mut all: Vec<String> = Vec::new();
    all.push("sum".to_owned());
    all.push("support".to_owned());
    all.push("count".to_owned());
    all.push("min".to_owned());
    all.push("max".to_owned());
    all
}

/// The header of a new index, or what the request or the header is refused for.
pub fn new_header(
    n: NewIndex,
    backend: &str,
    tile_edge: usize,
    layout: &str,
    boundary: BoundarySource,
) -> (r: Result<Header, Error>)
    ensures
        match request_of(backend@, tile_edge as int, n.grid, n.units@.len() as int, layout@) {
            Err(e) => r is Err && r->Err_0 == e,
            Ok(group) => match r {
                Ok(h) => made_for(h, n, backend@, tile_edge as int, group, boundary)
                    && header_refusal(h) is None,
                Err(e) => exists|h: Header| #[trigger]
                    made_for(h, n, backend@, tile_edge as int, group, boundary)
                        && header_refusal(h) == Some(e),
            },
        },
{
    let group: usize = check_request(backend, tile_edge, &n.grid, n.units.len(), layout)?;
    let version: u32 = if n.source_identity.is_some() {
        2
    } else {
        1
    };
    let algorithm_version: String = if same(backend, HIERARCHY) {
        HIERARCHY_TILES.to_owned()
    } else {
        FLAT_TILES.to_owned()
    };
    let h = Header {
        version,
        kind: SUMMARIES.to_owned(),
        numerical_contract: NUMERICAL_CONTRACT.to_owned(),
        algorithm_version,
        grid: n.grid,
        source_id: n.source_id,
        source_metadata: n.source_metadata,
        build_id: n.build_id,
        units: n.units,
        tile_edge,
        band_group: group,
        capabilities: capabilities(),
        byte_order: BYTE_ORDER.to_owned(),
        scalar: SCALAR.to_owned(),
        boundary_source: boundary,
        source_identity: n.source_identity,
    };
    assert(made_for(h, n, backend@, tile_edge as int, group as int, boundary));
    h.validate()?;
    Ok(h)
}

/// How a record of an index is made.
pub enum BuildStep {
    /// From the cells of a tile.
    Tile(TileRead),
    /// From the records of its children.
    Parent(Vec<usize>),
}

/// How the records of an index are made, one after the other: the tiles from their cells, and
/// each record above them from records that were made before it.
pub fn build_step(h: &Header, node: usize, striped: bool) -> (r: Result<BuildStep, Error>)
    requires
        h.shaped(),
        node < h.record_count(),
    ensures
        if h.record_count() > usize::MAX {
            r is Err && r->Err_0 == Error::LayoutOverflow
        } else if node < h.tile_count() {
            r matches Ok(BuildStep::Tile(t)) && reads_tile(*h, node as int, striped, t)
        } else {
            &&& r matches Ok(BuildStep::Parent(children))
            &&& children@.map_values(|c: usize| c as int) == children_of(
                h.level_list(),
                node as int,
            )
            &&& forall|i: int| 0 <= i < children@.len() ==> #[trigger] children@[i] < node
        },
{
    let layout = h.levels()?;
    proof {
        h.lemma_shape();
        crate::layout::lemma_node(
            h.grid.width as int,
            h.grid.height as int,
            h.tile_edge as int,
            h.flat(),
            node as int,
        );
    }
    let ghost w = h.grid.width as int;
    let ghost hh = h.grid.height as int;
    let ghost e = h.tile_edge as int;
    proof {
        crate::model::lemma_ceil_div(w, e);
        crate::model::lemma_ceil_div(hh, e);
        crate::layout::lemma_levels(
            crate::model::ceil_div(w, e),
            crate::model::ceil_div(hh, e),
            0,
            h.flat(),
        );
        assert(h.level_list()[0] == (h.across(), h.down(), 0int));
    }
    let (across, down, _) = layout.levels[0];
    assert(widen(layout.levels@)[0] == (across as int, down as int, layout.levels@[0].2 as int));
    if node < across * down {
        return Ok(BuildStep::Tile(tile_read(h, node, striped)));
    }
    assert(level_at(h.level_list(), node as int) > 0);
    let children = match layout.children(h.grid.width, h.grid.height, node) {
        Ok(children) => children,
        Err(_) => {
            assert(false);
            Vec::new()
        },
    };
    proof {
        let all = children_of(h.level_list(), node as int);
        assert(children@.map_values(|c: usize| c as int) =~= all);
        assert forall|i: int| 0 <= i < children@.len() implies #[trigger] children@[i] < node by {
            a_child_is_a_node_below(w, hh, e, h.flat(), node as int, i);
            assert(all[i] == children@[i]);
        }
    }
    Ok(BuildStep::Parent(children))
}

/// The lengths of a pair: a page for each record behind the header, and raw pages just where
/// the boundary is read from them.
pub proof fn the_lengths_of_a_pair(h: Header)
    requires
        h.shaped(),
    ensures
        h.length_as(true) == 65536 + h.record_count() * (40 * h.units@.len() + 32),
        (raw_total(h) == 0) == (h.boundary_source == BoundarySource::Original),
{
    h.lemma_shape();
    let g = h.group_count();
    let t = h.tile_count();
    let b = h.raw_bytes();
    crate::model::lemma_ceil_div(h.units@.len() as int, h.band_group as int);
    assert(b >= 0) by (nonlinear_arith)
        requires
            b == h.tile_edge * h.tile_edge * h.band_group * 9 + 32,
            h.tile_edge >= 0,
            h.band_group >= 0,
    ;
    crate::model::lemma_ceil_div(h.grid.width as int, h.tile_edge as int);
    crate::model::lemma_ceil_div(h.grid.height as int, h.tile_edge as int);
    assert(t >= 0) by (nonlinear_arith)
        requires
            t == h.across() * h.down(),
            h.across() >= 0,
            h.down() >= 0,
    ;
    assert(t * g * b >= 0) by (nonlinear_arith)
        requires
            t >= 0,
            g >= 0,
            b >= 0,
    ;
}

} // verus!
