//! Bounded, versioned, independently checksummed summaries with optional raw pages.
//! A complete index is committed atomically. No query scans the raw source
//! to verify identity, and no fully covered eligible tile requires a raw page.
use vstd::prelude::*;
use vstd::slice::slice_subrange;

use crate::bytes::{blank, le_bytes, put_bytes, put_u64, u64_at, zero_between};
use crate::codec::{blake3_hash, blake3_of};
use crate::error::Error;
use crate::layout::{box_at, end_of, grid_levels, lemma_levels, SummaryLayout};
use crate::model::{ceil_div, div_ceil, lemma_ceil_div, Grid, MAX_SIDE};
use crate::text::{byte_len, same, same_bytes, utf8};

verus! {

pub const HEADER: usize = 65536;

pub const MAX_PAIR_BYTES: u64 = 8589934592;

pub const MAX_QUERY_BYTES: u64 = 134217728;

/// The most bytes of one transport range.
pub const RANGE: usize = 4194304;

pub const MAX_READS: usize = 4096;

pub const SUMMARIES: &'static str = "summaries";

pub const RAW: &'static str = "raw";

pub const FLAT_TILES: &'static str = "flat_tiles_v1";

pub const HIERARCHY_TILES: &'static str = "hierarchy_tiles_v1";

pub const NUMERICAL_CONTRACT: &'static str = "native_grid_planar_v1";

pub const BYTE_ORDER: &'static str = "little";

pub const SCALAR: &'static str = "normalized_f64_u8_valid";

/// The statistics that an index serves, in the order in which it lists them.
pub open spec fn capability(i: int) -> Seq<char> {
    if i == 0 {
        "sum"@
    } else if i == 1 {
        "support"@
    } else if i == 2 {
        "count"@
    } else if i == 3 {
        "min"@
    } else {
        "max"@
    }
}

/// Missing field in earlier files means the original normalized pair.
#[derive(Clone, Copy, Debug, PartialEq, Eq, Structural)]
pub enum BoundarySource {
    Normalized,
    Original,
}

impl Default for BoundarySource {
    fn default() -> (r: Self)
        ensures
            r == BoundarySource::Normalized,
    {
        BoundarySource::Normalized
    }
}

/// A portable content and interpretation identity, as text, and whether it is an object.
pub struct SourceIdentity {
    pub text: String,
    pub object: bool,
}

/// What a persistent file says of itself.
pub struct Header {
    pub version: u32,
    pub kind: String,
    pub numerical_contract: String,
    pub algorithm_version: String,
    pub grid: Grid,
    pub source_id: String,
    pub source_metadata: String,
    pub build_id: String,
    pub units: Vec<Option<String>>,
    pub tile_edge: usize,
    pub band_group: usize,
    pub capabilities: Vec<String>,
    pub byte_order: String,
    pub scalar: String,
    pub boundary_source: BoundarySource,
    /// Present in the second version alone.
    pub source_identity: Option<SourceIdentity>,
}

pub open spec fn edge_ok(edge: int) -> bool {
    edge == 16 || edge == 64 || edge == 256
}

pub fn is_edge(edge: usize) -> (r: bool)
    ensures
        r == edge_ok(edge as int),
{
    edge == 16 || edge == 64 || edge == 256
}

/// Hexadecimal digits of either case.
pub open spec fn hex_text(text: Seq<u8>) -> bool {
    &&& text.len() == 64
    &&& forall|i: int| 0 <= i < text.len() ==> hex_byte(#[trigger] text[i])
}

pub open spec fn hex_byte(b: u8) -> bool {
    48 <= b <= 57 || 65 <= b <= 70 || 97 <= b <= 102
}

fn is_hex_text(text: &str) -> (r: bool)
    ensures
        r == hex_text(utf8(text@)),
{
    let bytes = text.as_bytes();
    if bytes.len() != 64 {
        return false;
    }
    let mut i: usize = 0;
    while i < bytes.len()
        invariant
            i <= bytes@.len(),
            bytes@ == utf8(text@),
            forall|k: int| 0 <= k < i ==> hex_byte(#[trigger] bytes@[k]),
        decreases bytes.len() - i,
    {
        let b: u8 = bytes[i];
        if !((b >= 48 && b <= 57) || (b >= 65 && b <= 70) || (b >= 97 && b <= 102)) {
            assert(!hex_byte(bytes@[i as int]));
            return false;
        }
        i += 1;
    }
    true
}

pub open spec fn unit_ok(unit: Option<String>) -> bool {
    unit matches Some(u) ==> utf8(u@).len() <= 1024
}

pub open spec fn units_ok(units: Seq<Option<String>>) -> bool {
    1 <= units.len() <= 20 && forall|i: int| 0 <= i < units.len() ==> unit_ok(#[trigger] units[i])
}

fn units_valid(units: &Vec<Option<String>>) -> (r: bool)
    ensures
        r == units_ok(units@),
{
    if units.len() == 0 || units.len() > 20 {
        return false;
    }
    let mut i: usize = 0;
    while i < units.len()
        invariant
            i <= units@.len(),
            forall|k: int| 0 <= k < i ==> unit_ok(#[trigger] units@[k]),
        decreases units.len() - i,
    {
        if let Some(u) = &units[i] {
            if byte_len(u.as_str()) > 1024 {
                assert(!unit_ok(units@[i as int]));
                return false;
            }
        }
        i += 1;
    }
    true
}

pub open spec fn capabilities_ok(c: Seq<String>) -> bool {
    c.len() == 5 && forall|i: int| 0 <= i < 5 ==> (#[trigger] c[i])@ == capability(i)
}

fn capabilities_valid(c: &Vec<String>) -> (r: bool)
    ensures
        r == capabilities_ok(c@),
{
    if c.len() != 5 {
        return false;
    }
    let a = same(c[0].as_str(), "sum");
    let b = same(c[1].as_str(), "support");
    let d = same(c[2].as_str(), "count");
    let e = same(c[3].as_str(), "min");
    let f = same(c[4].as_str(), "max");
    let r = a && b && d && e && f;
    proof {
        if r {
            assert forall|i: int| 0 <= i < 5 implies (#[trigger] c@[i])@ == capability(i) by {
                if i == 0 {
                } else if i == 1 {
                } else if i == 2 {
                } else if i == 3 {
                } else {
                    assert(i == 4);
                }
            }
        } else if capabilities_ok(c@) {
            assert(c@[0]@ == capability(0));
            assert(c@[1]@ == capability(1));
            assert(c@[2]@ == capability(2));
            assert(c@[3]@ == capability(3));
            assert(c@[4]@ == capability(4));
        }
    }
    r
}

/// The version and the portable identity go together.
pub open spec fn identity_ok(h: Header) -> bool {
    ||| h.version == 1 && h.source_identity is None
    ||| h.version == 2 && (h.source_identity matches Some(i) && i.object)
}

/// What a header is refused for.
pub open spec fn header_refusal(h: Header) -> Option<Error> {
    if !((h.version == 1 || h.version == 2) && (h.kind@ == SUMMARIES@ || h.kind@ == RAW@)) {
        Some(Error::PersistentVersion)
    } else if !identity_ok(h) {
        Some(Error::PersistentIdentityVersion)
    } else if !(h.numerical_contract@ == NUMERICAL_CONTRACT@ && (h.algorithm_version@ == FLAT_TILES@
        || h.algorithm_version@ == HIERARCHY_TILES@)) {
        Some(Error::PersistentAlgorithm)
    } else if !h.grid.valid() {
        Some(Error::GridShape)
    } else if !units_ok(h.units@) {
        Some(Error::PersistentBands)
    } else if !(edge_ok(h.tile_edge as int) && 1 <= h.band_group <= 20 && h.band_group
        <= h.units@.len()) {
        Some(Error::PersistentTiles)
    } else if !(utf8(h.source_id@).len() <= 1024 && hex_text(utf8(h.build_id@))) {
        Some(Error::PersistentIdentity)
    } else if !(h.byte_order@ == BYTE_ORDER@ && h.scalar@ == SCALAR@ && capabilities_ok(
        h.capabilities@,
    )) {
        Some(Error::PersistentLayout)
    } else if h.length() > MAX_PAIR_BYTES {
        Some(Error::PersistentLength)
    } else {
        None
    }
}

impl Header {
    pub open spec fn flat(&self) -> bool {
        self.algorithm_version@ == FLAT_TILES@
    }

    pub open spec fn across(&self) -> int {
        ceil_div(self.grid.width as int, self.tile_edge as int)
    }

    pub open spec fn down(&self) -> int {
        ceil_div(self.grid.height as int, self.tile_edge as int)
    }

    pub open spec fn tile_count(&self) -> int {
        self.across() * self.down()
    }

    pub open spec fn group_count(&self) -> int {
        ceil_div(self.units@.len() as int, self.band_group as int)
    }

    pub open spec fn summary_bytes(&self) -> int {
        (self.units@.len() * 40 + 32) as int
    }

    pub open spec fn raw_bytes(&self) -> int {
        self.tile_edge * self.tile_edge * self.band_group * 9 + 32
    }

    /// The levels of summaries over the grid.
    pub open spec fn level_list(&self) -> Seq<(int, int, int)> {
        grid_levels(
            self.grid.width as int,
            self.grid.height as int,
            self.tile_edge as int,
            self.flat(),
        )
    }

    pub open spec fn record_count(&self) -> int {
        end_of(self.level_list())
    }

    /// Bytes of a file of a kind.
    pub open spec fn length_as(&self, summaries: bool) -> int {
        HEADER + if summaries {
            self.record_count() * self.summary_bytes()
        } else {
            self.tile_count() * self.group_count() * self.raw_bytes()
        }
    }

    pub open spec fn length(&self) -> int {
        self.length_as(self.kind@ == SUMMARIES@)
    }

    /// The parts of a header that fix the shape of its file.
    pub open spec fn shaped(&self) -> bool {
        &&& self.grid.shaped()
        &&& edge_ok(self.tile_edge as int)
        &&& 1 <= self.units@.len() <= 20
        &&& 1 <= self.band_group <= 20
    }

    pub open spec fn valid(&self) -> bool {
        header_refusal(*self) is None
    }

    pub fn tiles_x(&self) -> (r: usize)
        requires
            self.shaped(),
        ensures
            r == self.across(),
    {
        div_ceil(self.grid.width, self.tile_edge)
    }

    pub fn tiles_y(&self) -> (r: usize)
        requires
            self.shaped(),
        ensures
            r == self.down(),
    {
        div_ceil(self.grid.height, self.tile_edge)
    }

    pub fn tiles(&self) -> (r: usize)
        requires
            self.shaped(),
            self.tile_count() <= usize::MAX,
        ensures
            r == self.tile_count(),
    {
        self.tiles_x() * self.tiles_y()
    }

    pub fn groups(&self) -> (r: usize)
        requires
            self.shaped(),
        ensures
            r == self.group_count(),
            1 <= r <= 20,
    {
        proof {
            lemma_ceil_div(self.units@.len() as int, self.band_group as int);
        }
        let r: usize = div_ceil(self.units.len(), self.band_group);
        proof {
            let n = self.units@.len() as int;
            let g = self.band_group as int;
            assert(ceil_div(n, g) <= n) by (nonlinear_arith)
                requires
                    1 <= n <= 20,
                    1 <= g <= 20,
                    ceil_div(n, g) == (n + g - 1) / g,
            ;
        }
        r
    }

    pub fn summary_size(&self) -> (r: usize)
        requires
            self.shaped(),
        ensures
            r == self.summary_bytes(),
            72 <= r <= 832,
    {
        self.units.len() * 40 + 32
    }

    pub fn raw_size(&self) -> (r: usize)
        requires
            self.shaped(),
        ensures
            r == self.raw_bytes(),
            r <= 11796512,
    {
        let e: usize = self.tile_edge;
        let g: usize = self.band_group;
        assert(e * e <= 65536) by (nonlinear_arith)
            requires
                e <= 256,
        ;
        let square: usize = e * e;
        assert(square * g <= 65536 * 20) by (nonlinear_arith)
            requires
                square <= 65536,
                g <= 20,
        ;
        square * g * 9 + 32
    }

    pub fn levels(&self) -> (r: Result<SummaryLayout, Error>)
        requires
            self.shaped(),
        ensures
            match r {
                Ok(layout) => layout.tile_edge == self.tile_edge && layout.of_grid(
                    self.grid.width as int,
                    self.grid.height as int,
                    self.flat(),
                ),
                Err(e) => e == Error::LayoutOverflow && self.record_count() > usize::MAX,
            },
    {
        SummaryLayout::new(
            self.grid.width,
            self.grid.height,
            self.tile_edge,
            same(self.algorithm_version.as_str(), FLAT_TILES),
        )
    }

    pub fn summary_records(&self) -> (r: Result<usize, Error>)
        requires
            self.shaped(),
        ensures
            r == (if self.record_count() <= usize::MAX {
                Ok::<usize, Error>(self.record_count() as usize)
            } else {
                Err(Error::LayoutOverflow)
            }),
    {
        proof {
            self.lemma_shape();
        }
        let layout = self.levels()?;
        assert(layout.levels@.len() == crate::layout::widen(layout.levels@).len());
        layout.records()
    }

    pub proof fn lemma_shape(&self)
        requires
            self.shaped(),
        ensures
            self.level_list().len() > 0,
            self.record_count() >= 1,
            self.tile_count() >= 1,
            self.tile_count() <= self.record_count(),
            self.across() <= MAX_SIDE,
            self.down() <= MAX_SIDE,
    {
        let w = self.grid.width as int;
        let hh = self.grid.height as int;
        let e = self.tile_edge as int;
        lemma_ceil_div(w, e);
        lemma_ceil_div(hh, e);
        lemma_levels(self.across(), self.down(), 0, self.flat());
        crate::layout::lemma_level_counts(w, hh, e, self.flat(), 0);
        let levels = self.level_list();
        let top = levels.len() - 1;
        assert(levels[0].0 * levels[0].1 >= 1) by (nonlinear_arith)
            requires
                levels[0].0 >= 1,
                levels[0].1 >= 1,
        ;
        if top > 0 {
            assert(levels[top].0 * levels[top].1 >= 1) by (nonlinear_arith)
                requires
                    levels[top].0 >= 1,
                    levels[top].1 >= 1,
            ;
        }
    }

    /// The length of a file of the given kind, where it fits the format's budget.
    pub fn file_length(&self, summaries: bool) -> (r: Option<u64>)
        requires
            self.shaped(),
        ensures
            r == (if self.length_as(summaries) <= MAX_PAIR_BYTES {
                Some(self.length_as(summaries) as u64)
            } else {
                None
            }),
            self.length_as(summaries) >= HEADER,
            r matches Some(n) ==> n <= MAX_PAIR_BYTES,
    {
        proof {
            self.lemma_shape();
        }
        let pages: u128;
        let size: u128;
        if summaries {
            size = self.summary_size() as u128;
            pages = match self.summary_records() {
                Ok(n) => n as u128,
                Err(_) => {
                    proof {
                        let n = self.record_count();
                        let s = self.summary_bytes();
                        assert(n * s > MAX_PAIR_BYTES) by (nonlinear_arith)
                            requires
                                n > 0xffff_ffff,
                                s >= 72,
                        ;
                    }
                    return None;
                },
            };
        } else {
            let x: u128 = self.tiles_x() as u128;
            let y: u128 = self.tiles_y() as u128;
            let g: u128 = self.groups() as u128;
            size = self.raw_size() as u128;
            assert(0 <= x * y <= 0x7fff_ffff * 0x7fff_ffff) by (nonlinear_arith)
                requires
                    0 <= x <= 0x7fff_ffff,
                    0 <= y <= 0x7fff_ffff,
            ;
            let cells: u128 = x * y;
            assert(0 <= cells * g <= 0x7fff_ffff * 0x7fff_ffff * 20) by (nonlinear_arith)
                requires
                    0 <= cells <= 0x7fff_ffff * 0x7fff_ffff,
                    0 <= g <= 20,
            ;
            pages = cells * g;
        }
        assert(0 <= pages * size <= 0x7fff_ffff * 0x7fff_ffff * 20 * 11796512) by (nonlinear_arith)
            requires
                0 <= pages <= 0x7fff_ffff * 0x7fff_ffff * 20,
                0 <= size <= 11796512,
        ;
        let bytes: u128 = pages * size + HEADER as u128;
        if bytes <= MAX_PAIR_BYTES as u128 {
            Some(bytes as u64)
        } else {
            None
        }
    }

    pub fn validate(&self) -> (r: Result<(), Error>)
        ensures
            r == match header_refusal(*self) {
                Some(e) => Err::<(), Error>(e),
                None => Ok(()),
            },
    {
        let summaries = same(self.kind.as_str(), SUMMARIES);
        if !((self.version == 1 || self.version == 2) && (summaries || same(
            self.kind.as_str(),
            RAW,
        ))) {
            return Err(Error::PersistentVersion);
        }
        let identified = match &self.source_identity {
            None => self.version == 1,
            Some(i) => self.version == 2 && i.object,
        };
        if !identified {
            return Err(Error::PersistentIdentityVersion);
        }
        if !(same(self.numerical_contract.as_str(), NUMERICAL_CONTRACT) && (same(
            self.algorithm_version.as_str(),
            FLAT_TILES,
        ) || same(self.algorithm_version.as_str(), HIERARCHY_TILES))) {
            return Err(Error::PersistentAlgorithm);
        }
        self.grid.validate()?;
        if !units_valid(&self.units) {
            return Err(Error::PersistentBands);
        }
        if !(is_edge(self.tile_edge) && self.band_group >= 1 && self.band_group <= 20
            && self.band_group <= self.units.len()) {
            return Err(Error::PersistentTiles);
        }
        if !(byte_len(self.source_id.as_str()) <= 1024 && is_hex_text(self.build_id.as_str())) {
            return Err(Error::PersistentIdentity);
        }
        if !(same(self.byte_order.as_str(), BYTE_ORDER) && same(self.scalar.as_str(), SCALAR)
            && capabilities_valid(&self.capabilities)) {
            return Err(Error::PersistentLayout);
        }
        match self.file_length(summaries) {
            Some(_) => Ok(()),
            None => Err(Error::PersistentLength),
        }
    }

    /// The cells of a tile: its first column and row, and those after its last.
    pub fn bounds(&self, tile: usize) -> (r: [usize; 4])
        requires
            self.shaped(),
            tile < self.tile_count(),
        ensures
            ({
                let x = tile as int % self.across() * self.tile_edge;
                let y = tile as int / self.across() * self.tile_edge;
                &&& r[0] == x
                &&& r[1] == y
                &&& r[2] == (if x + self.tile_edge < self.grid.width {
                    x + self.tile_edge
                } else {
                    self.grid.width as int
                })
                &&& r[3] == (if y + self.tile_edge < self.grid.height {
                    y + self.tile_edge
                } else {
                    self.grid.height as int
                })
                &&& x < self.grid.width
                &&& y < self.grid.height
            }),
    {
        let across: usize = self.tiles_x();
        proof {
            let t = tile as int;
            let nx = self.across();
            let ny = self.down();
            let e = self.tile_edge as int;
            lemma_ceil_div(self.grid.width as int, e);
            lemma_ceil_div(self.grid.height as int, e);
            crate::index::lemma_row_of(t, nx, ny);
            assert((t % nx < ceil_div(self.grid.width as int, e)) == ((t % nx) * e
                < self.grid.width));
            assert((t / nx < ceil_div(self.grid.height as int, e)) == ((t / nx) * e
                < self.grid.height));
        }
        let x: usize = tile % across * self.tile_edge;
        let y: usize = tile / across * self.tile_edge;
        let right: usize = if self.tile_edge < self.grid.width - x {
            x + self.tile_edge
        } else {
            self.grid.width
        };
        let bottom: usize = if self.tile_edge < self.grid.height - y {
            y + self.tile_edge
        } else {
            self.grid.height
        };
        [x, y, right, bottom]
    }

    /// The cells of a summary record.
    pub fn node_bounds(&self, record: usize) -> (r: Result<[usize; 4], Error>)
        requires
            self.shaped(),
        ensures
            match r {
                Ok(b) => record < self.record_count() && (
                    b[0] as int,
                    b[1] as int,
                    b[2] as int,
                    b[3] as int,
                ) == box_at(
                    self.level_list(),
                    self.tile_edge as int,
                    self.grid.width as int,
                    self.grid.height as int,
                    record as int,
                ),
                Err(_) => record >= self.record_count() || self.record_count() > usize::MAX,
            },
    {
        let layout = self.levels()?;
        layout.bounds(self.grid.width, self.grid.height, record)
    }
}

/// A page: its body, and the digest of that.
pub open spec fn page_of(body: Seq<u8>) -> Seq<u8> {
    body + blake3_of(body)
}

/// The body of a page that its digest confirms.
pub open spec fn page_body(page: Seq<u8>) -> Result<Seq<u8>, Error> {
    if page.len() < 32 {
        Err(Error::TruncatedPage)
    } else {
        let body = page.take(page.len() - 32);
        if page.skip(page.len() - 32) == blake3_of(body) {
            Ok(body)
        } else {
            Err(Error::PageChecksum)
        }
    }
}

/// Append the digest of a body to it. The page gives the body back.
pub fn checksum_page(data: Vec<u8>) -> (r: Vec<u8>)
    ensures
        r@ == page_of(data@),
        r@.len() == data@.len() + 32,
        page_body(r@) == Ok::<Seq<u8>, Error>(data@),
{
    let mut data = data;
    let ghost body = data@;
    let mut hash = blake3_hash(data.as_slice());
    data.append(&mut hash);
    assert(data@.take(data@.len() - 32) =~= body);
    assert(data@.skip(data@.len() - 32) =~= blake3_of(body));
    data
}

/// The body of a page, if its digest confirms it.
pub fn verify_page(data: &[u8]) -> (r: Result<&[u8], Error>)
    ensures
        match r {
            Ok(body) => page_body(data@) == Ok::<Seq<u8>, Error>(body@),
            Err(e) => page_body(data@) == Err::<Seq<u8>, Error>(e),
        },
{
    let n: usize = data.len();
    if n < 32 {
        return Err(Error::TruncatedPage);
    }
    let body = slice_subrange(data, 0, n - 32);
    let tail = slice_subrange(data, n - 32, n);
    assert(body@ =~= data@.take(n - 32));
    assert(tail@ =~= data@.skip(n - 32));
    let hash = blake3_hash(body);
    if same_bytes(hash.as_slice(), tail) {
        Ok(body)
    } else {
        Err(Error::PageChecksum)
    }
}

/// A page whose body was changed is refused, unless the digest of the changed body is the same.
pub proof fn a_changed_body_is_refused(body: Seq<u8>, changed: Seq<u8>)
    requires
        blake3_of(body).len() == 32,
        blake3_of(changed) != blake3_of(body),
    ensures
        page_body(changed + blake3_of(body)) == Err::<Seq<u8>, Error>(Error::PageChecksum),
{
    let page = changed + blake3_of(body);
    assert(page.take(page.len() - 32) =~= changed);
    assert(page.skip(page.len() - 32) =~= blake3_of(body));
}

/// The eight bytes that a persistent file begins with.
pub open spec fn magic() -> Seq<u8> {
    seq![82u8, 83u8, 84u8, 82u8, 76u8, 65u8, 66u8, 49u8]
}

/// The body of a header page: the magic, the length of the text, the text, and zeros.
pub open spec fn header_body(text: Seq<u8>) -> Seq<u8> {
    magic() + le_bytes(text.len(), 8) + text + Seq::new(
        (HEADER - 48 - text.len()) as nat,
        |i: int| 0u8,
    )
}

/// The text that a header page holds.
pub open spec fn header_text(page: Seq<u8>) -> Result<Seq<u8>, Error> {
    match page_body(page) {
        Err(e) => Err(e),
        Ok(b) => if b.len() != HEADER - 32 || b.take(8) != magic() {
            Err(Error::PersistentHeader)
        } else {
            let n = crate::bytes::le(b.subrange(8, 16));
            if n > HEADER - 48 {
                Err(Error::PersistentHeaderBound)
            } else if !blank(b.skip(16 + n as int)) {
                Err(Error::PersistentHeaderPadding)
            } else {
                Ok(b.subrange(16, 16 + n as int))
            }
        },
    }
}

/// The header page around the text of a header.
pub fn encode_header(text: &[u8]) -> (r: Result<Vec<u8>, Error>)
    ensures
        if text@.len() > HEADER - 48 {
            r == Err::<Vec<u8>, Error>(Error::PersistentHeaderBudget)
        } else {
            &&& r matches Ok(page)
            &&& page@ == page_of(header_body(text@))
            &&& page@.len() == HEADER
            &&& header_text(page@) == Ok::<Seq<u8>, Error>(text@)
        },
{
    let n: usize = text.len();
    if n > HEADER - 48 {
        return Err(Error::PersistentHeaderBudget);
    }
    let mut bytes: Vec<u8> = vec![0u8; HEADER - 32];
    let head: [u8; 8] = [82, 83, 84, 82, 76, 65, 66, 49];
    put_bytes(&mut bytes, 0, head.as_slice());
    let ghost a = bytes@;
    put_u64(bytes.as_mut_slice(), 8, n as u64);
    let ghost b = bytes@;
    put_bytes(&mut bytes, 16, text);
    proof {
        assert(head@ =~= magic());
        crate::bytes::lemma_limits();
        crate::bytes::le_bytes_round_trip(n as nat, 8);
        assert(a.subrange(0, 8) =~= magic());
        assert(b.subrange(8, 16) =~= le_bytes(n as nat, 8));
        assert forall|k: int| 0 <= k < bytes@.len() implies #[trigger] bytes@[k] == header_body(
            text@,
        )[k] by {
            if k < 8 {
                assert(bytes@[k] == a[k]);
                assert(a[k] == a.subrange(0, 8)[k]);
            } else if k < 16 {
                assert(bytes@[k] == b[k]);
                assert(b[k] == b.subrange(8, 16)[k - 8]);
            } else if k < 16 + n {
                assert(bytes@.subrange(16, 16 + n)[k - 16] == text@[k - 16]);
            }
        }
        assert(bytes@ =~= header_body(text@));
    }
    let page = checksum_page(bytes);
    proof {
        let body = header_body(text@);
        assert(body.take(8) =~= magic());
        assert(body.subrange(8, 16) =~= le_bytes(n as nat, 8));
        crate::bytes::le_bytes_round_trip(n as nat, 8);
        assert(body.subrange(16, 16 + n) =~= text@);
        assert forall|i: int| 0 <= i < body.skip(16 + n).len() implies #[trigger] body.skip(
            16 + n,
        )[i] == 0 by {}
    }
    Ok(page)
}

/// The text of a header page.
pub fn decode_header(page: &[u8]) -> (r: Result<Vec<u8>, Error>)
    ensures
        match r {
            Ok(text) => header_text(page@) == Ok::<Seq<u8>, Error>(text@),
            Err(e) => header_text(page@) == Err::<Seq<u8>, Error>(e),
        },
{
    let b = verify_page(page)?;
    if b.len() != HEADER - 32 {
        return Err(Error::PersistentHeader);
    }
    let head: [u8; 8] = [82, 83, 84, 82, 76, 65, 66, 49];
    assert(head@ =~= magic());
    assert(b@.subrange(0, 8) =~= b@.take(8));
    if !same_bytes(slice_subrange(b, 0, 8), head.as_slice()) {
        return Err(Error::PersistentHeader);
    }
    let n: u64 = u64_at(b, 8);
    if n > (HEADER - 48) as u64 {
        return Err(Error::PersistentHeaderBound);
    }
    let end: usize = 16 + n as usize;
    assert(b@.subrange(end as int, b@.len() as int) =~= b@.skip(end as int));
    if !zero_between(b, end, b.len()) {
        return Err(Error::PersistentHeaderPadding);
    }
    let text = slice_subrange(b, 16, end);
    let mut out: Vec<u8> = Vec::new();
    let mut i: usize = 0;
    while i < text.len()
        invariant
            i <= text@.len(),
            out@ == text@.take(i as int),
        decreases text.len() - i,
    {
        out.push(text[i]);
        i += 1;
    }
    assert(out@ =~= text@);
    Ok(out)
}

} // verus!
