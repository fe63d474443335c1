//! The header of a serving object, and what follows from it: band groups, the directory and
//! the order of payloads.
use vstd::prelude::*;

use crate::error::Error;
use crate::index::{lemma_row_major, lemma_row_of};
use crate::layout::{
    copy_levels, end_of, grid_levels, lemma_levels, same_levels, widen, Level, SummaryLayout,
};
use crate::model::{ceil_div, div_ceil, lemma_ceil_div, Grid};
use crate::skv_group::{admitted, MAX_BYTES};
use crate::source::RawRasterMetadata;
use crate::text::{byte_len, same, utf8};

verus! {

pub const BOOTSTRAP: usize = 16_384;

pub const RECORD: usize = 128;

pub const RECORDS_PER_PAGE: usize = 64;

pub const PAGE: usize = 8240;

pub const MAX_OBJECT: u64 = 137438953472;

pub const MAX_LEAF_RECORDS: usize = 131_072;

/// Previously inadmissible large objects use the existing writer's contiguous
/// group-major payload order, checked from bounded neighbor descriptors.
pub const MAX_LARGE_GROUPED_LEAF_RECORDS: usize = 16_777_216;

pub const MAX_BANDS: usize = 64;

#[derive(Debug)]
pub struct HierarchyDescription {
    pub tile_edge: usize,
    pub levels: Vec<Level>,
}

#[derive(Debug)]
pub struct Header {
    pub version: u32,
    pub grid: Grid,
    pub raw_metadata: RawRasterMetadata,
    pub chunk_edge: usize,
    pub band_group: usize,
    pub payload_layout: String,
    pub codec: String,
    pub predictor: String,
    pub compression_level: u32,
    pub summaries: bool,
    pub hierarchy: HierarchyDescription,
    pub numerical_schema: String,
    pub build_id: String,
    pub original_source_id: String,
    /// The original source's identity descriptor, as compact JSON text.
    pub original_identity: Option<String>,
    pub logical_digest: String,
    pub directory_digest: String,
    pub summary_disabled_reason: Option<String>,
}

/// How many bands from `first` on have samples of `scalar` bytes, up to `cap` of them.
pub open spec fn run(widths: Seq<int>, first: int, cap: int, scalar: int) -> int
    decreases cap,
{
    if cap <= 0 || first < 0 || first >= widths.len() || widths[first] != scalar {
        0
    } else {
        1 + run(widths, first + 1, cap - 1, scalar)
    }
}

/// The most bands of a scalar that one packet of full tiles takes.
pub open spec fn group_cap(edge: int, band_group: int, scalar: int) -> int {
    let fit = MAX_BYTES as int / (edge * edge * (scalar + 1));
    if fit <= band_group {
        fit
    } else {
        band_group
    }
}

/// How many bands the group has that begins with band `first`.
pub open spec fn group_len(widths: Seq<int>, edge: int, band_group: int, first: int) -> int {
    run(widths, first, group_cap(edge, band_group, widths[first]), widths[first])
}

/// First band and length of the group of `band`, if the groups from `first` on are made one
/// after the other.
pub open spec fn group_of(
    widths: Seq<int>,
    edge: int,
    band_group: int,
    first: int,
    band: int,
) -> (int, int)
    decreases widths.len() - first,
{
    let n = group_len(widths, edge, band_group, first);
    if band < first + n || n <= 0 || first + n >= widths.len() {
        (first, n)
    } else {
        group_of(widths, edge, band_group, first + n, band)
    }
}

/// How many groups the bands from `first` on make.
pub open spec fn groups_from(widths: Seq<int>, edge: int, band_group: int, first: int) -> int
    decreases widths.len() - first,
{
    if first >= widths.len() {
        0
    } else {
        let n = group_len(widths, edge, band_group, first);
        if n <= 0 || first + n >= widths.len() {
            1
        } else {
            1 + groups_from(widths, edge, band_group, first + n)
        }
    }
}

/// Sample widths, chunk edges and group sizes of a header that can be read.
pub open spec fn groupable(widths: Seq<int>, edge: int, band_group: int) -> bool {
    &&& edge == 64 || edge == 128 || edge == 256
    &&& 1 <= widths.len() <= MAX_BANDS
    &&& 1 <= band_group <= 64
    &&& forall|i: int|
        0 <= i < widths.len() ==> {
            let w = #[trigger] widths[i];
            w == 1 || w == 2 || w == 4 || w == 8
        }
}

proof fn lemma_cap(edge: int, band_group: int, scalar: int)
    requires
        edge == 64 || edge == 128 || edge == 256,
        1 <= band_group <= 64,
        scalar == 1 || scalar == 2 || scalar == 4 || scalar == 8,
    ensures
        1 <= group_cap(edge, band_group, scalar) <= band_group,
        0 < edge * edge * (scalar + 1) <= 589824,
        edge * edge * (scalar + 1) * group_cap(edge, band_group, scalar) <= MAX_BYTES,
        edge * edge <= 65536,
{
    let size = edge * edge * (scalar + 1);
    assert(edge * edge == 4096 || edge * edge == 16384 || edge * edge == 65536);
    let square = edge * edge;
    assert(0 < square * (scalar + 1) <= 589824) by (nonlinear_arith)
        requires
            0 < square <= 65536,
            0 < scalar <= 8,
    ;
    let fit = MAX_BYTES as int / size;
    vstd::arithmetic::div_mod::lemma_fundamental_div_mod(MAX_BYTES as int, size);
    assert(fit >= 1) by (nonlinear_arith)
        requires
            MAX_BYTES as int == size * fit + MAX_BYTES as int % size,
            MAX_BYTES as int % size < size,
            size <= 589824,
            MAX_BYTES == 3276800,
            size > 0,
    ;
    let cap = group_cap(edge, band_group, scalar);
    assert(size * cap <= size * fit) by (nonlinear_arith)
        requires
            cap <= fit,
            size > 0,
    ;
}

proof fn lemma_run(widths: Seq<int>, first: int, cap: int, scalar: int)
    requires
        0 <= first <= widths.len(),
    ensures
        0 <= run(widths, first, cap, scalar),
        cap >= 0 ==> run(widths, first, cap, scalar) <= cap,
        first + run(widths, first, cap, scalar) <= widths.len(),
        forall|i: int|
            first <= i < first + run(widths, first, cap, scalar) ==> #[trigger] widths[i] == scalar,
        cap > 0 && first < widths.len() && widths[first] == scalar ==> run(
            widths,
            first,
            cap,
            scalar,
        ) >= 1,
    decreases cap,
{
    if !(cap <= 0 || first >= widths.len() || widths[first] != scalar) {
        lemma_run(widths, first + 1, cap - 1, scalar);
    }
}

/// A group is not empty, stays within the bands, has samples of one width, and a packet of
/// its full tile is one that the packet bound admits.
pub proof fn a_group_fits_its_packet(
    widths: Seq<int>,
    edge: int,
    band_group: int,
    first: int,
)
    requires
        groupable(widths, edge, band_group),
        0 <= first < widths.len(),
    ensures
        ({
            let n = group_len(widths, edge, band_group, first);
            &&& 1 <= n <= 64
            &&& first + n <= widths.len()
            &&& forall|i: int| first <= i < first + n ==> #[trigger] widths[i] == widths[first]
            &&& admitted(edge, edge, widths[first], n)
        }),
{
    let scalar = widths[first];
    let cap = group_cap(edge, band_group, scalar);
    lemma_cap(edge, band_group, scalar);
    lemma_run(widths, first, cap, scalar);
    let n = group_len(widths, edge, band_group, first);
    assert(edge * edge * (scalar + 1) * n <= edge * edge * (scalar + 1) * cap) by (nonlinear_arith)
        requires
            n <= cap,
            0 < edge * edge * (scalar + 1),
    ;
}

proof fn lemma_group_of(
    widths: Seq<int>,
    edge: int,
    band_group: int,
    first: int,
    band: int,
)
    requires
        groupable(widths, edge, band_group),
        0 <= first <= band < widths.len(),
    ensures
        ({
            let g = group_of(widths, edge, band_group, first, band);
            &&& first <= g.0 <= band < g.0 + g.1 <= widths.len()
            &&& g.1 == group_len(widths, edge, band_group, g.0)
            &&& forall|other: int|
                g.0 <= other < g.0 + g.1 ==> #[trigger] group_of(
                    widths,
                    edge,
                    band_group,
                    first,
                    other,
                ) == g
        }),
    decreases widths.len() - first,
{
    a_group_fits_its_packet(widths, edge, band_group, first);
    let n = group_len(widths, edge, band_group, first);
    if !(band < first + n) {
        lemma_group_of(widths, edge, band_group, first + n, band);
        let g = group_of(widths, edge, band_group, first + n, band);
        assert(group_of(widths, edge, band_group, first, band) == g);
        assert forall|other: int| g.0 <= other < g.0 + g.1 implies #[trigger] group_of(
            widths,
            edge,
            band_group,
            first,
            other,
        ) == g by {
            assert(group_of(widths, edge, band_group, first + n, other) == g);
        }
    } else {
        assert forall|other: int| first <= other < first + n implies #[trigger] group_of(
            widths,
            edge,
            band_group,
            first,
            other,
        ) == (first, n) by {}
    }
}

/// Every band lies in one group, and each member of it names the same group.
pub proof fn groups_divide_the_bands(
    widths: Seq<int>,
    edge: int,
    band_group: int,
    band: int,
)
    requires
        groupable(widths, edge, band_group),
        0 <= band < widths.len(),
    ensures
        ({
            let g = group_of(widths, edge, band_group, 0, band);
            &&& 0 <= g.0 <= band < g.0 + g.1 <= widths.len()
            &&& g.1 == group_len(widths, edge, band_group, g.0)
            &&& forall|other: int|
                g.0 <= other < g.0 + g.1 ==> #[trigger] group_of(
                    widths,
                    edge,
                    band_group,
                    0,
                    other,
                ) == g
        }),
{
    lemma_group_of(widths, edge, band_group, 0, band);
}

/// Where a group ends, the next one begins.
proof fn lemma_next_group(
    widths: Seq<int>,
    edge: int,
    band_group: int,
    first: int,
    band: int,
)
    requires
        groupable(widths, edge, band_group),
        0 <= first <= band < widths.len(),
    ensures
        ({
            let g = group_of(widths, edge, band_group, first, band);
            g.0 + g.1 < widths.len() ==> group_of(widths, edge, band_group, first, g.0 + g.1).0
                == g.0 + g.1
        }),
    decreases widths.len() - first,
{
    a_group_fits_its_packet(widths, edge, band_group, first);
    let n = group_len(widths, edge, band_group, first);
    if band < first + n {
        if first + n < widths.len() {
            a_group_fits_its_packet(widths, edge, band_group, first + n);
            assert(group_of(widths, edge, band_group, first, first + n) == group_of(
                widths,
                edge,
                band_group,
                first + n,
                first + n,
            ));
        }
    } else {
        lemma_next_group(widths, edge, band_group, first + n, band);
        lemma_group_of(widths, edge, band_group, first + n, band);
        let g = group_of(widths, edge, band_group, first + n, band);
        assert(group_of(widths, edge, band_group, first, band) == g);
        if g.0 + g.1 < widths.len() {
            assert(group_of(widths, edge, band_group, first, g.0 + g.1) == group_of(
                widths,
                edge,
                band_group,
                first + n,
                g.0 + g.1,
            ));
        }
    }
}

impl Header {
    /// Bytes of a sample of each band.
    pub open spec fn widths(&self) -> Seq<int> {
        Seq::new(
            self.raw_metadata.bands@.len(),
            |i: int| self.raw_metadata.bands@[i].scalar_type.width(),
        )
    }

    pub open spec fn grouped_spec(&self) -> bool {
        self.payload_layout@ == "row_group_v1"@
    }

    pub open spec fn predicted(&self) -> bool {
        self.predictor@ == "byte_delta_v1"@
    }

    /// Tiles of the grid.
    pub open spec fn leaf_count(&self) -> int {
        ceil_div(self.grid.width as int, self.chunk_edge as int) * ceil_div(
            self.grid.height as int,
            self.chunk_edge as int,
        )
    }

    /// The levels of tiles and parents.
    pub open spec fn level_seq(&self) -> Seq<(int, int, int)> {
        grid_levels(self.grid.width as int, self.grid.height as int, self.chunk_edge as int, false)
    }

    pub open spec fn record_count(&self) -> int {
        end_of(self.level_seq()) * self.raw_metadata.bands@.len()
    }

    pub open spec fn page_count(&self) -> int {
        ceil_div(self.record_count(), RECORDS_PER_PAGE as int)
    }

    pub open spec fn data_start(&self) -> int {
        BOOTSTRAP + self.page_count() * PAGE
    }

    /// The dimensions that every function of a read header counts on.
    pub open spec fn shaped(&self) -> bool {
        &&& self.grid.shaped()
        &&& groupable(self.widths(), self.chunk_edge as int, self.band_group as int)
        &&& self.hierarchy.tile_edge == self.chunk_edge
        &&& widen(self.hierarchy.levels@) == self.level_seq()
        &&& self.record_count() <= usize::MAX
        &&& self.data_start() <= MAX_OBJECT
        &&& self.leaf_count() * self.raw_metadata.bands@.len() <= if self.grouped_spec() {
            MAX_LARGE_GROUPED_LEAF_RECORDS as int
        } else {
            MAX_LEAF_RECORDS as int
        }
    }

    /// First band and length of the group of a band.
    pub open spec fn group_spec(&self, band: int) -> (int, int) {
        if self.grouped_spec() {
            group_of(self.widths(), self.chunk_edge as int, self.band_group as int, 0, band)
        } else {
            (band, 1)
        }
    }

    pub fn bands(&self) -> (r: usize)
        ensures
            r == self.raw_metadata.bands@.len(),
    {
        self.raw_metadata.bands.len()
    }

    pub fn grouped(&self) -> (r: bool)
        ensures
            r == self.grouped_spec(),
    {
        same(self.payload_layout.as_str(), "row_group_v1")
    }

    /// The feature bits of the bootstrap.
    pub open spec fn flags(&self) -> u32 {
        ((if self.summaries {
            1int
        } else {
            0
        }) + (if self.predicted() {
            2int
        } else {
            0
        }) + (if self.raw_metadata.source_overview is Some {
            4int
        } else {
            0
        }) + (if self.grouped_spec() {
            8int
        } else {
            0
        })) as u32
    }

    pub fn feature_flags(&self) -> (r: u32)
        ensures
            r == self.flags(),
            r < 16,
    {
        let a: u32 = if self.summaries {
            1
        } else {
            0
        };
        let b: u32 = if same(self.predictor.as_str(), "byte_delta_v1") {
            2
        } else {
            0
        };
        let c: u32 = if self.raw_metadata.source_overview.is_some() {
            4
        } else {
            0
        };
        let d: u32 = if self.grouped() {
            8
        } else {
            0
        };
        a + b + c + d
    }

    fn width_of(&self, band: usize) -> (r: usize)
        requires
            band < self.raw_metadata.bands@.len(),
        ensures
            r == self.widths()[band as int],
    {
        self.raw_metadata.bands[band].scalar_type.byte_width()
    }

    /// How many bands the group has that begins with `first`.
    fn group_length(&self, first: usize) -> (r: usize)
        requires
            self.shaped(),
            first < self.raw_metadata.bands@.len(),
        ensures
            r == group_len(
                self.widths(),
                self.chunk_edge as int,
                self.band_group as int,
                first as int,
            ),
    {
        let ghost widths = self.widths();
        let ghost edge = self.chunk_edge as int;
        let n: usize = self.bands();
        let scalar: usize = self.width_of(first);
        proof {
            lemma_cap(edge, self.band_group as int, scalar as int);
        }
        let fit: usize = MAX_BYTES / (self.chunk_edge * self.chunk_edge * (scalar + 1));
        let cap: usize = if fit <= self.band_group {
            fit
        } else {
            self.band_group
        };
        let mut count: usize = 0;
        while count < cap && first + count < n && self.width_of(first + count) == scalar
            invariant
                n == self.raw_metadata.bands@.len(),
                n <= 64,
                widths == self.widths(),
                count <= cap <= 64,
                first + count <= n,
                run(widths, first as int, cap as int, scalar as int) == count + run(
                    widths,
                    first + count,
                    cap - count,
                    scalar as int,
                ),
            decreases cap - count,
        {
            count += 1;
        }
        count
    }

    /// Membership uses the worst full-tile shape, so clipped edge tiles have
    /// identical band groups and a smaller packet. Types may differ only when
    /// their original scalar byte widths agree; no values are converted.
    pub fn band_group_bounds(&self, band: usize) -> (r: Result<(usize, usize), Error>)
        requires
            self.shaped(),
        ensures
            if band < self.raw_metadata.bands@.len() {
                r matches Ok(g) && g.0 == self.group_spec(band as int).0 && g.1 == self.group_spec(
                    band as int,
                ).1 && g.0 <= band < g.0 + g.1 <= self.raw_metadata.bands@.len()
            } else {
                r == Err::<(usize, usize), Error>(Error::GroupBand)
            },
    {
        let n: usize = self.bands();
        if band >= n {
            return Err(Error::GroupBand);
        }
        if !self.grouped() {
            return Ok((band, 1));
        }
        let ghost widths = self.widths();
        let ghost edge = self.chunk_edge as int;
        let ghost limit = self.band_group as int;
        proof {
            groups_divide_the_bands(widths, edge, limit, band as int);
        }
        let mut first: usize = 0;
        loop
            invariant
                self.shaped(),
                n == self.raw_metadata.bands@.len(),
                widths == self.widths(),
                edge == self.chunk_edge,
                limit == self.band_group,
                first <= band < n,
                self.grouped_spec(),
                group_of(widths, edge, limit, first as int, band as int) == group_of(
                    widths,
                    edge,
                    limit,
                    0,
                    band as int,
                ),
            decreases n - first,
        {
            proof {
                a_group_fits_its_packet(widths, edge, limit, first as int);
            }
            let count: usize = self.group_length(first);
            if band < first + count {
                return Ok((first, count));
            }
            first += count;
        }
    }

    /// The leader record and the length of the group that a record belongs to.
    pub open spec fn canonical(&self, id: int) -> (int, int) {
        let n = self.raw_metadata.bands@.len() as int;
        let g = self.group_spec(id % n);
        (id / n * n + g.0, g.1)
    }

    pub fn canonical_group(&self, id: usize) -> (r: Result<(usize, usize), Error>)
        requires
            self.shaped(),
        ensures
            r matches Ok(g) && g.0 == self.canonical(id as int).0 && g.1 == self.canonical(
                id as int,
            ).1 && g.0 <= id < g.0 + g.1 && g.1 <= 64,
    {
        let n: usize = self.bands();
        let node: usize = id / n;
        proof {
            assert(id < (id + 1) * n) by (nonlinear_arith)
                requires
                    id >= 0,
                    n >= 1,
            ;
            lemma_row_of(id as int, n as int, id + 1);
        }
        match self.band_group_bounds(id % n) {
            Ok((first, count)) => Ok((node * n + first, count)),
            Err(e) => Err(e),
        }
    }

    pub open spec fn groups_spec(&self) -> int {
        if self.grouped_spec() {
            groups_from(self.widths(), self.chunk_edge as int, self.band_group as int, 0)
        } else {
            self.raw_metadata.bands@.len() as int
        }
    }

    pub fn groups_per_tile(&self) -> (r: usize)
        requires
            self.shaped(),
        ensures
            r == self.groups_spec(),
            1 <= r <= self.raw_metadata.bands@.len(),
    {
        let n: usize = self.bands();
        if !self.grouped() {
            return n;
        }
        let ghost widths = self.widths();
        let ghost edge = self.chunk_edge as int;
        let ghost limit = self.band_group as int;
        let mut first: usize = 0;
        let mut groups: usize = 0;
        while first < n
            invariant
                self.shaped(),
                n == self.raw_metadata.bands@.len(),
                widths == self.widths(),
                edge == self.chunk_edge,
                limit == self.band_group,
                first <= n <= 64,
                groups <= first,
                first > 0 ==> groups > 0,
                groups_from(widths, edge, limit, 0) == groups + groups_from(
                    widths,
                    edge,
                    limit,
                    first as int,
                ),
                first <= n,
            decreases n - first,
        {
            proof {
                a_group_fits_its_packet(widths, edge, limit, first as int);
            }
            first += self.group_length(first);
            groups += 1;
        }
        groups
    }

    pub proof fn lemma_leaves(&self)
        requires
            self.shaped(),
        ensures
            1 <= self.leaf_count() <= MAX_LARGE_GROUPED_LEAF_RECORDS,
            self.leaf_count() <= end_of(self.level_seq()),
            1 <= end_of(self.level_seq()) <= self.record_count(),
    {
        let w = self.grid.width as int;
        let h = self.grid.height as int;
        let e = self.chunk_edge as int;
        lemma_ceil_div(w, e);
        lemma_ceil_div(h, e);
        lemma_levels(ceil_div(w, e), ceil_div(h, e), 0, false);
        let n = self.raw_metadata.bands@.len() as int;
        let leaves = self.leaf_count();
        assert(leaves <= leaves * n) by (nonlinear_arith)
            requires
                leaves >= 1,
                n >= 1,
        ;
        let end = end_of(self.level_seq());
        assert(end <= end * n) by (nonlinear_arith)
            requires
                end >= 1,
                n >= 1,
        ;
    }

    pub fn leaves(&self) -> (r: usize)
        requires
            self.shaped(),
        ensures
            r == self.leaf_count(),
            1 <= r <= MAX_LARGE_GROUPED_LEAF_RECORDS,
    {
        proof {
            self.lemma_leaves();
        }
        div_ceil(self.grid.width, self.chunk_edge) * div_ceil(self.grid.height, self.chunk_edge)
    }

    pub open spec fn ordered_large(&self) -> bool {
        self.leaf_count() * self.raw_metadata.bands@.len() > MAX_LEAF_RECORDS
    }

    pub fn ordered_large_payloads(&self) -> (r: bool)
        requires
            self.shaped(),
        ensures
            r == self.ordered_large(),
    {
        self.leaves() * self.bands() > MAX_LEAF_RECORDS
    }

    pub fn layout(&self) -> (r: SummaryLayout)
        requires
            self.shaped(),
        ensures
            r.of_grid(self.grid.width as int, self.grid.height as int, false),
            r.tile_edge == self.chunk_edge,
            widen(r.levels@) == self.level_seq(),
    {
        proof {
            self.lemma_leaves();
        }
        SummaryLayout {
            tile_edge: self.hierarchy.tile_edge,
            levels: copy_levels(&self.hierarchy.levels),
        }
    }

    /// How many records the directory holds: one for each node and band.
    pub fn records(&self) -> (r: usize)
        requires
            self.shaped(),
        ensures
            r == self.record_count(),
    {
        proof {
            self.lemma_leaves();
        }
        let layout = self.layout();
        match layout.records() {
            Ok(n) => n * self.bands(),
            Err(_) => 0,
        }
    }

    pub fn pages(&self) -> (r: usize)
        requires
            self.shaped(),
        ensures
            r == self.page_count(),
    {
        div_ceil(self.records(), RECORDS_PER_PAGE)
    }

    /// Where payloads begin.
    pub fn data_offset(&self) -> (r: u64)
        requires
            self.shaped(),
        ensures
            r == self.data_start(),
    {
        BOOTSTRAP as u64 + self.pages() as u64 * PAGE as u64
    }
}

/// The bits of a double that is neither infinite nor not a number.
pub open spec fn finite_bits(bits: u64) -> bool {
    bits / 0x10_0000_0000_0000 % 2048 != 2047
}

pub fn is_finite_bits(bits: u64) -> (r: bool)
    ensures
        r == finite_bits(bits),
{
    bits / 0x10_0000_0000_0000 % 2048 != 2047
}

/// Sixty-four hexadecimal digits.
pub open spec fn digest_text(bytes: Seq<u8>) -> bool {
    bytes.len() == 64 && forall|i: int| 0 <= i < 64 ==> hex_byte(#[trigger] bytes[i])
}

pub open spec fn hex_byte(b: u8) -> bool {
    48 <= b <= 57 || 65 <= b <= 70 || 97 <= b <= 102
}

pub fn is_digest_text(text: &str) -> (r: bool)
    ensures
        r == digest_text(utf8(text@)),
{
    let bytes = text.as_bytes();
    if bytes.len() != 64 {
        return false;
    }
    let mut i: usize = 0;
    while i < 64
        invariant
            i <= 64,
            bytes@.len() == 64,
            bytes@ == utf8(text@),
            forall|k: int| 0 <= k < i ==> hex_byte(#[trigger] bytes@[k]),
        decreases 64 - i,
    {
        let b: u8 = bytes[i];
        if !(48 <= b && b <= 57 || 65 <= b && b <= 70 || 97 <= b && b <= 102) {
            return false;
        }
        i += 1;
    }
    true
}

pub open spec fn known_payload_layout(value: Seq<char>) -> bool {
    value == "band"@ || value == "row_group_v1"@
}

pub open spec fn known_predictor(value: Seq<char>) -> bool {
    value == "none"@ || value == "byte_delta_v1"@
}

pub open spec fn known_codec(value: Seq<char>) -> bool {
    value == "none"@ || value == "deflate"@
}

pub fn band_payload_layout() -> (r: String)
    ensures
        r@ == "band"@,
{
    "band".to_owned()
}

pub fn payload_layout_is_band(value: &str) -> (r: bool)
    ensures
        r == (value@ == "band"@),
{
    same(value, "band")
}

pub fn validate_payload_layout(value: &str) -> (r: Result<(), Error>)
    ensures
        r == (if known_payload_layout(value@) {
            Ok::<(), Error>(())
        } else {
            Err(Error::UnsupportedPayloadLayout)
        }),
{
    if same(value, "band") || same(value, "row_group_v1") {
        Ok(())
    } else {
        Err(Error::UnsupportedPayloadLayout)
    }
}

pub fn no_predictor() -> (r: String)
    ensures
        r@ == "none"@,
{
    "none".to_owned()
}

pub fn predictor_is_none(value: &str) -> (r: bool)
    ensures
        r == (value@ == "none"@),
{
    same(value, "none")
}

pub fn validate_predictor(value: &str) -> (r: Result<(), Error>)
    ensures
        r == (if known_predictor(value@) {
            Ok::<(), Error>(())
        } else {
            Err(Error::UnsupportedPredictor)
        }),
{
    if same(value, "none") || same(value, "byte_delta_v1") {
        Ok(())
    } else {
        Err(Error::UnsupportedPredictor)
    }
}

/// How a source is compiled into a serving object.
#[derive(Debug)]
pub struct CompileOptions {
    pub chunk_edge: usize,
    pub band_group: usize,
    pub payload_layout: String,
    pub codec: String,
    pub predictor: String,
    pub compression_level: u32,
    pub summaries: bool,
    pub working_bytes: usize,
    pub max_output_bytes: u64,
}

impl Default for CompileOptions {
    fn default() -> (r: Self)
        ensures
            r.chunk_edge == 256,
            r.band_group == 4,
            r.payload_layout@ == "band"@,
            r.codec@ == "deflate"@,
            r.predictor@ == "none"@,
            r.compression_level == 3,
            r.summaries,
            r.working_bytes == 67108864,
            r.max_output_bytes == 2147483648,
    {
        CompileOptions {
            chunk_edge: 256,
            band_group: 4,
            payload_layout: band_payload_layout(),
            codec: "deflate".to_owned(),
            predictor: no_predictor(),
            compression_level: 3,
            summaries: true,
            working_bytes: 67108864,
            max_output_bytes: 2147483648,
        }
    }
}

impl CompileOptions {
    /// What the options are refused for, if they are.
    pub open spec fn refusal(&self) -> Option<Error> {
        if !known_payload_layout(self.payload_layout@) {
            Some(Error::UnsupportedPayloadLayout)
        } else if !known_predictor(self.predictor@) {
            Some(Error::UnsupportedPredictor)
        } else if !(self.chunk_edge == 64 || self.chunk_edge == 128 || self.chunk_edge == 256) {
            Some(Error::ChunkEdge)
        } else if !(1 <= self.band_group <= 64) {
            Some(Error::BandGroup)
        } else if !(known_codec(self.codec@) && self.compression_level <= 9) {
            Some(Error::CodecOrLevel)
        } else if !(16777216 <= self.working_bytes <= 268435456) {
            Some(Error::CompilerMemory)
        } else if !(BOOTSTRAP <= self.max_output_bytes <= MAX_OBJECT) {
            Some(Error::OutputLimit)
        } else {
            None
        }
    }

    pub fn validate(&self) -> (r: Result<(), Error>)
        ensures
            r == (match self.refusal() {
                None => Ok::<(), Error>(()),
                Some(e) => Err(e),
            }),
    {
        validate_payload_layout(self.payload_layout.as_str())?;
        validate_predictor(self.predictor.as_str())?;
        if !(self.chunk_edge == 64 || self.chunk_edge == 128 || self.chunk_edge == 256) {
            return Err(Error::ChunkEdge);
        }
        if !(1 <= self.band_group && self.band_group <= 64) {
            return Err(Error::BandGroup);
        }
        if !((same(self.codec.as_str(), "none") || same(self.codec.as_str(), "deflate"))
            && self.compression_level <= 9) {
            return Err(Error::CodecOrLevel);
        }
        if !(16777216 <= self.working_bytes && self.working_bytes <= 268435456) {
            return Err(Error::CompilerMemory);
        }
        if !(BOOTSTRAP as u64 <= self.max_output_bytes && self.max_output_bytes <= MAX_OBJECT) {
            return Err(Error::OutputLimit);
        }
        Ok(())
    }
}

/// A band's interpretation can be stored, and no band before it has the same origin.
pub open spec fn band_ok(metadata: RawRasterMetadata, i: int) -> bool {
    let band = metadata.bands@[i];
    &&& band.unit matches Some(unit) ==> utf8(unit@).len() <= 1024
    &&& utf8(band.description@).len() <= 4096
    &&& band.mask_flags < 16
    &&& band.original_band_index < metadata.source_band_count
    &&& forall|j: int|
        0 <= j < i ==> (#[trigger] metadata.bands@[j]).original_band_index
            != band.original_band_index
}

pub open spec fn scaling_ok(metadata: RawRasterMetadata, i: int) -> bool {
    finite_bits(metadata.bands@[i].scale_f64_bits) && finite_bits(
        metadata.bands@[i].offset_f64_bits,
    )
}

/// What the bands from `i` on are refused for, if they are.
pub open spec fn bands_refusal(metadata: RawRasterMetadata, i: int) -> Option<Error>
    decreases metadata.bands@.len() - i,
{
    if i < 0 || i >= metadata.bands@.len() {
        None
    } else if !scaling_ok(metadata, i) {
        Some(Error::SkvScaling)
    } else if !band_ok(metadata, i) {
        Some(Error::SkvBandInterpretation)
    } else {
        bands_refusal(metadata, i + 1)
    }
}

fn check_bands(metadata: &RawRasterMetadata) -> (r: Result<(), Error>)
    ensures
        r == (match bands_refusal(*metadata, 0) {
            None => Ok::<(), Error>(()),
            Some(e) => Err(e),
        }),
{
    let n: usize = metadata.bands.len();
    let mut i: usize = 0;
    while i < n
        invariant
            i <= n,
            n == metadata.bands@.len(),
            bands_refusal(*metadata, 0) == bands_refusal(*metadata, i as int),
        decreases n - i,
    {
        let band = &metadata.bands[i];
        if !(is_finite_bits(band.scale_f64_bits) && is_finite_bits(band.offset_f64_bits)) {
            return Err(Error::SkvScaling);
        }
        let unit_ok = match &band.unit {
            Some(unit) => byte_len(unit.as_str()) <= 1024,
            None => true,
        };
        let mut fresh = true;
        let mut j: usize = 0;
        while j < i
            invariant
                j <= i < n,
                n == metadata.bands@.len(),
                *band == metadata.bands@[i as int],
                fresh == forall|k: int|
                    0 <= k < j ==> (#[trigger] metadata.bands@[k]).original_band_index
                        != band.original_band_index,
            decreases i - j,
        {
            if metadata.bands[j].original_band_index == band.original_band_index {
                fresh = false;
            }
            j += 1;
        }
        if !(unit_ok && byte_len(band.description.as_str()) <= 4096 && band.mask_flags < 16
            && band.original_band_index < metadata.source_band_count && fresh) {
            return Err(Error::SkvBandInterpretation);
        }
        i += 1;
    }
    Ok(())
}

impl Header {
    pub open spec fn source_metadata_ok(&self) -> bool {
        let m = self.raw_metadata;
        &&& m.bands@.len() <= m.source_band_count <= 65_536
        &&& m.source_overview matches Some(level) ==> level < 64
        &&& m.pixel_convention@ == "Area"@ || m.pixel_convention@ == "Point"@ || m.pixel_convention@
            == "unspecified"@
    }

    pub open spec fn provenance_ok(&self) -> bool {
        &&& utf8(self.original_source_id@).len() <= 1024
        &&& self.summary_disabled_reason matches Some(reason) ==> utf8(reason@).len() <= 256
    }

    pub open spec fn leaves_ok(&self) -> bool {
        let n = self.leaf_count() * self.raw_metadata.bands@.len();
        n <= MAX_LEAF_RECORDS || self.grouped_spec() && n <= MAX_LARGE_GROUPED_LEAF_RECORDS
    }

    /// What the header is refused for, if it is.
    pub open spec fn refusal(&self) -> Option<Error> {
        if !known_payload_layout(self.payload_layout@) {
            Some(Error::UnsupportedPayloadLayout)
        } else if !known_predictor(self.predictor@) {
            Some(Error::UnsupportedPredictor)
        } else if !(self.version == 0 && self.numerical_schema@
            == "native_grid_planar_compensated_v1"@) {
            Some(Error::SkvVersion)
        } else if !self.grid.valid() {
            Some(Error::GridShape)
        } else if !((self.chunk_edge == 64 || self.chunk_edge == 128 || self.chunk_edge == 256)
            && self.chunk_edge == self.hierarchy.tile_edge) {
            Some(Error::SkvChunkShape)
        } else if !(1 <= self.raw_metadata.bands@.len() <= 64 && 1 <= self.band_group <= 64) {
            Some(Error::SkvBandCount)
        } else if !(known_codec(self.codec@) && self.compression_level <= 9) {
            Some(Error::CodecOrLevel)
        } else if !self.source_metadata_ok() {
            Some(Error::SkvSourceMetadata)
        } else if bands_refusal(self.raw_metadata, 0) is Some {
            bands_refusal(self.raw_metadata, 0)
        } else if end_of(self.level_seq()) > usize::MAX {
            Some(Error::LayoutOverflow)
        } else if widen(self.hierarchy.levels@) != self.level_seq() {
            Some(Error::SkvHierarchy)
        } else if !self.leaves_ok() {
            Some(Error::SkvLeafBound)
        } else if !(digest_text(utf8(self.build_id@)) && digest_text(utf8(self.logical_digest@))
            && digest_text(utf8(self.directory_digest@))) {
            Some(Error::SkvDigest)
        } else if !self.provenance_ok() {
            Some(Error::SkvProvenance)
        } else if self.record_count() > usize::MAX || self.data_start() > MAX_OBJECT {
            Some(Error::SkvDirectoryBound)
        } else {
            None
        }
    }

    /// Check everything that a reader counts on.
    pub fn validate(&self) -> (r: Result<(), Error>)
        ensures
            r == (match self.refusal() {
                None => Ok::<(), Error>(()),
                Some(e) => Err(e),
            }),
            r is Ok ==> self.shaped(),
    {
        validate_payload_layout(self.payload_layout.as_str())?;
        validate_predictor(self.predictor.as_str())?;
        if !(self.version == 0 && same(
            self.numerical_schema.as_str(),
            "native_grid_planar_compensated_v1",
        )) {
            return Err(Error::SkvVersion);
        }
        self.grid.validate()?;
        let edge: usize = self.chunk_edge;
        if !((edge == 64 || edge == 128 || edge == 256) && edge == self.hierarchy.tile_edge) {
            return Err(Error::SkvChunkShape);
        }
        let n: usize = self.bands();
        if !(1 <= n && n <= 64 && 1 <= self.band_group && self.band_group <= 64) {
            return Err(Error::SkvBandCount);
        }
        if !((same(self.codec.as_str(), "none") || same(self.codec.as_str(), "deflate"))
            && self.compression_level <= 9) {
            return Err(Error::CodecOrLevel);
        }
        let m = &self.raw_metadata;
        let overview_ok = match m.source_overview {
            Some(level) => level < 64,
            None => true,
        };
        let convention = m.pixel_convention.as_str();
        if !(n <= m.source_band_count && m.source_band_count <= 65_536 && overview_ok && (same(
            convention,
            "Area",
        ) || same(convention, "Point") || same(convention, "unspecified"))) {
            return Err(Error::SkvSourceMetadata);
        }
        check_bands(m)?;
        let layout = match SummaryLayout::new(self.grid.width, self.grid.height, edge, false) {
            Ok(layout) => layout,
            Err(e) => return Err(e),
        };
        let matches = same_levels(&self.hierarchy.levels, &layout.levels);
        proof {
            lemma_widen_injective(self.hierarchy.levels@, layout.levels@);
        }
        if !matches {
            return Err(Error::SkvHierarchy);
        }
        proof {
            lemma_ceil_div(self.grid.width as int, edge as int);
            lemma_ceil_div(self.grid.height as int, edge as int);
            lemma_levels(
                ceil_div(self.grid.width as int, edge as int),
                ceil_div(self.grid.height as int, edge as int),
                0,
                false,
            );
            assert(self.leaf_count() <= self.leaf_count() * n) by (nonlinear_arith)
                requires
                    n >= 1,
                    self.leaf_count() >= 1,
            ;
        }
        let leaves: usize = div_ceil(self.grid.width, edge) * div_ceil(self.grid.height, edge);
        let chunks_ok = match leaves.checked_mul(n) {
            Some(chunks) => chunks <= MAX_LEAF_RECORDS || (self.grouped() && chunks
                <= MAX_LARGE_GROUPED_LEAF_RECORDS),
            None => false,
        };
        if !chunks_ok {
            return Err(Error::SkvLeafBound);
        }
        if !(is_digest_text(self.build_id.as_str()) && is_digest_text(self.logical_digest.as_str())
            && is_digest_text(self.directory_digest.as_str())) {
            return Err(Error::SkvDigest);
        }
        let reason_ok = match &self.summary_disabled_reason {
            Some(reason) => byte_len(reason.as_str()) <= 256,
            None => true,
        };
        if !(byte_len(self.original_source_id.as_str()) <= 1024 && reason_ok) {
            return Err(Error::SkvProvenance);
        }
        let nodes: usize = match layout.records() {
            Ok(nodes) => nodes,
            Err(e) => return Err(e),
        };
        let records: usize = match nodes.checked_mul(n) {
            Some(records) => records,
            None => return Err(Error::SkvDirectoryBound),
        };
        let pages: usize = div_ceil(records, RECORDS_PER_PAGE);
        // Pages that end within the largest object are no more than this.
        if pages as u64 > (MAX_OBJECT - BOOTSTRAP as u64) / PAGE as u64 {
            return Err(Error::SkvDirectoryBound);
        }
        assert(self.shaped()) by {
            assert forall|i: int| 0 <= i < self.widths().len() implies {
                let w = #[trigger] self.widths()[i];
                w == 1 || w == 2 || w == 4 || w == 8
            } by {}
        }
        Ok(())
    }
}

proof fn lemma_widen_injective(a: Seq<Level>, b: Seq<Level>)
    ensures
        (widen(a) == widen(b)) == (a == b),
{
    if widen(a) == widen(b) {
        assert(widen(a).len() == a.len() && widen(b).len() == b.len());
        assert forall|i: int| 0 <= i < a.len() implies a[i] == b[i] by {
            assert(widen(a)[i] == widen(b)[i]);
        }
        assert(a =~= b);
    }
}

impl Header {
    /// A record leads its group at a leaf.
    pub open spec fn leads(&self, id: int) -> bool {
        let n = self.raw_metadata.bands@.len() as int;
        &&& 0 <= id
        &&& id / n < self.leaf_count()
        &&& self.group_spec(id % n).0 == id % n
    }

    /// The leader whose payload stands before that of `id`: the same group at the tile
    /// before, or the group before at the last tile.
    pub open spec fn previous(&self, id: int) -> Option<int> {
        let n = self.raw_metadata.bands@.len() as int;
        let node = id / n;
        let first = id % n;
        if node > 0 {
            Some((node - 1) * n + first)
        } else if first > 0 {
            Some((self.leaf_count() - 1) * n + self.group_spec(first - 1).0)
        } else {
            None
        }
    }

    /// The leader whose payload stands behind that of `id`.
    pub open spec fn next(&self, id: int) -> Option<int> {
        let n = self.raw_metadata.bands@.len() as int;
        let node = id / n;
        let g = self.group_spec(id % n);
        if node + 1 < self.leaf_count() {
            Some((node + 1) * n + id % n)
        } else if g.0 + g.1 < n {
            Some(g.0 + g.1)
        } else {
            None
        }
    }

    /// Canonical physical neighbors in the existing grouped writer schedule.
    /// No allocation proportional to raster extent or band count is required.
    pub fn physical_neighbors(&self, id: usize) -> (r: Result<
        (Option<usize>, Option<usize>),
        Error,
    >)
        requires
            self.shaped(),
        ensures
            if !self.grouped_spec() {
                r == Err::<(Option<usize>, Option<usize>), Error>(Error::SkvUngrouped)
            } else if !self.leads(id as int) {
                r == Err::<(Option<usize>, Option<usize>), Error>(Error::SkvNotLeader)
            } else {
                &&& r matches Ok((previous, next))
                &&& match previous {
                    Some(p) => self.previous(id as int) == Some(p as int),
                    None => self.previous(id as int) is None,
                }
                &&& match next {
                    Some(p) => self.next(id as int) == Some(p as int),
                    None => self.next(id as int) is None,
                }
            },
    {
        if !self.grouped() {
            return Err(Error::SkvUngrouped);
        }
        let n: usize = self.bands();
        let node: usize = id / n;
        let band: usize = id % n;
        let leaves: usize = self.leaves();
        let (first, count) = match self.band_group_bounds(band) {
            Ok(g) => g,
            Err(e) => return Err(e),
        };
        if node >= leaves || band != first {
            return Err(Error::SkvNotLeader);
        }
        proof {
            assert(leaves * n <= MAX_LARGE_GROUPED_LEAF_RECORDS);
            assert(node * n <= leaves * n && (node > 0 ==> 0 <= (node - 1) * n <= leaves * n - n) && (leaves - 1) * n
                <= leaves * n && (node + 1 < leaves ==> (node + 1) * n <= leaves * n))
                by (nonlinear_arith)
                requires
                    0 <= node < leaves,
                    1 <= n,
            ;
        }
        let previous: Option<usize> = if node > 0 {
            Some((node - 1) * n + first)
        } else if first > 0 {
            match self.band_group_bounds(first - 1) {
                Ok((prior, _)) => Some((leaves - 1) * n + prior),
                Err(e) => return Err(e),
            }
        } else {
            None
        };
        let next: Option<usize> = if node + 1 < leaves {
            Some((node + 1) * n + first)
        } else if first + count < n {
            Some(first + count)
        } else {
            None
        };
        Ok((previous, next))
    }

    /// The leader that is reached from the first one in `k` steps, where there is one.
    pub open spec fn chain(&self, k: nat) -> Option<int>
        decreases k,
    {
        if k == 0 {
            Some(0)
        } else {
            match self.chain((k - 1) as nat) {
                Some(id) => self.next(id),
                None => None,
            }
        }
    }

    /// The last leader in the order of the payloads.
    pub open spec fn last_leader(&self) -> int {
        let n = self.raw_metadata.bands@.len() as int;
        (self.leaf_count() - 1) * n + self.group_spec(n - 1).0
    }

    proof fn lemma_leader(&self, id: int)
        requires
            self.shaped(),
            self.grouped_spec(),
            self.leads(id),
        ensures
            ({
                let n = self.raw_metadata.bands@.len() as int;
                let g = self.group_spec(id % n);
                &&& n >= 1
                &&& id == id / n * n + id % n
                &&& 0 <= id / n < self.leaf_count()
                &&& 0 <= id % n < n
                &&& g.0 == id % n
                &&& g.1 >= 1
                &&& g.0 + g.1 <= n
                &&& forall|b: int| g.0 <= b < g.0 + g.1 ==> #[trigger] self.group_spec(b) == g
            }),
    {
        let n = self.raw_metadata.bands@.len() as int;
        vstd::arithmetic::div_mod::lemma_fundamental_div_mod(id, n);
        assert(n * (id / n) == id / n * n) by (nonlinear_arith);
        vstd::arithmetic::div_mod::lemma_div_pos_is_pos(id, n);
        groups_divide_the_bands(
            self.widths(),
            self.chunk_edge as int,
            self.band_group as int,
            id % n,
        );
    }

    /// Just one leader has none before it: the first record.
    pub proof fn only_the_first_leader_has_none_before_it(&self, id: int)
        requires
            self.shaped(),
            self.grouped_spec(),
            self.leads(id),
        ensures
            (self.previous(id) is None) == (id == 0),
            self.leads(0),
    {
        let n = self.raw_metadata.bands@.len() as int;
        self.lemma_leader(id);
        self.lemma_leaves();
        groups_divide_the_bands(self.widths(), self.chunk_edge as int, self.band_group as int, 0);
        vstd::arithmetic::div_mod::lemma_small_mod(0, n as nat);
        if id / n > 0 {
            assert(id / n * n >= n) by (nonlinear_arith)
                requires
                    id / n >= 1,
                    n >= 1,
            ;
        }
    }

    /// Just one leader has none behind it: that of the last group at the last leaf.
    pub proof fn only_the_last_leader_has_none_behind_it(&self, id: int)
        requires
            self.shaped(),
            self.grouped_spec(),
            self.leads(id),
        ensures
            (self.next(id) is None) == (id == self.last_leader()),
            self.leads(self.last_leader()),
    {
        let n = self.raw_metadata.bands@.len() as int;
        let last = self.group_spec(n - 1);
        let leaves = self.leaf_count();
        self.lemma_leader(id);
        self.lemma_leaves();
        groups_divide_the_bands(
            self.widths(),
            self.chunk_edge as int,
            self.band_group as int,
            n - 1,
        );
        vstd::arithmetic::div_mod::lemma_fundamental_div_mod_converse(
            self.last_leader(),
            n,
            leaves - 1,
            last.0,
        );
        assert(self.group_spec(last.0) == last);
        assert((leaves - 1) * n >= 0) by (nonlinear_arith)
            requires
                leaves >= 1,
                n >= 1,
        ;
        let g = self.group_spec(id % n);
        if self.next(id) is None {
            assert(self.group_spec(n - 1) == g);
        }
        if id == self.last_leader() {
            assert(id / n == leaves - 1);
            assert(g == last);
        }
    }

    /// The place of a leader in the order of the payloads.
    pub open spec fn turn(&self, id: int) -> int {
        let n = self.raw_metadata.bands@.len() as int;
        id % n * self.leaf_count() + id / n
    }

    proof fn lemma_turn(&self, id: int)
        requires
            self.shaped(),
            self.grouped_spec(),
            self.leads(id),
        ensures
            self.turn(id) >= 0,
            self.previous(id) matches Some(p) ==> self.turn(p) < self.turn(id),
    {
        let n = self.raw_metadata.bands@.len() as int;
        let leaves = self.leaf_count();
        self.lemma_leader(id);
        self.neighbors_are_mutual(id);
        assert(id % n * leaves >= 0) by (nonlinear_arith)
            requires
                id % n >= 0,
                leaves >= 0,
        ;
        if let Some(p) = self.previous(id) {
            self.lemma_leader(p);
            if id / n > 0 {
                vstd::arithmetic::div_mod::lemma_fundamental_div_mod_converse(
                    p,
                    n,
                    id / n - 1,
                    id % n,
                );
            } else {
                let prior = self.group_spec(id % n - 1).0;
                groups_divide_the_bands(
                    self.widths(),
                    self.chunk_edge as int,
                    self.band_group as int,
                    id % n - 1,
                );
                vstd::arithmetic::div_mod::lemma_fundamental_div_mod_converse(
                    p,
                    n,
                    leaves - 1,
                    prior,
                );
                assert((prior + 1) * leaves <= id % n * leaves) by (nonlinear_arith)
                    requires
                        prior + 1 <= id % n,
                        leaves >= 0,
                ;
                assert((prior + 1) * leaves == prior * leaves + leaves) by (nonlinear_arith);
            }
        }
    }

    /// Every leader that is reached is a leader, and later steps reach later ones.
    proof fn lemma_chain(&self, j: nat, k: nat)
        requires
            self.shaped(),
            self.grouped_spec(),
            self.leads(0),
            j <= k,
            self.chain(k) is Some,
        ensures
            self.chain(j) is Some,
            self.leads(self.chain(k)->0),
            self.leads(self.chain(j)->0),
            j < k ==> self.turn(self.chain(j)->0) < self.turn(self.chain(k)->0),
        decreases k,
    {
        if k > 0 {
            let before = (k - 1) as nat;
            if j < k {
                self.lemma_chain(j, before);
            } else {
                self.lemma_chain(before, before);
            }
            let p = self.chain(before)->0;
            self.neighbors_are_mutual(p);
            self.lemma_turn(self.chain(k)->0);
        }
    }

    /// Following the order of the payloads from the first leader visits every leader just once.
    pub proof fn the_chain_visits_every_leader_once(&self, id: int) -> (k: nat)
        requires
            self.shaped(),
            self.grouped_spec(),
            self.leads(id),
        ensures
            self.chain(k) == Some(id),
            forall|j: nat| #[trigger] self.chain(j) == Some(id) ==> j == k,
        decreases self.turn(id),
    {
        self.only_the_first_leader_has_none_before_it(id);
        self.lemma_turn(id);
        let k: nat = if id == 0 {
            0
        } else {
            let p = self.previous(id)->0;
            self.neighbors_are_mutual(id);
            self.lemma_turn(p);
            let before = self.the_chain_visits_every_leader_once(p);
            before + 1
        };
        assert(self.chain(k) == Some(id)) by {
            if id != 0 {
                assert(self.chain((k - 1) as nat) == self.previous(id));
            }
        }
        assert forall|j: nat| #[trigger] self.chain(j) == Some(id) implies j == k by {
            if j < k {
                self.lemma_chain(j, k);
            } else if k < j {
                self.lemma_chain(k, j);
            }
        }
        k
    }

    /// The payload order is a chain: what stands behind a leader is a leader, and has that
    /// one before it.
    pub proof fn neighbors_are_mutual(&self, id: int)
        requires
            self.shaped(),
            self.grouped_spec(),
            self.leads(id),
        ensures
            self.next(id) matches Some(n) ==> self.leads(n) && self.previous(n) == Some(id),
            self.previous(id) matches Some(p) ==> self.leads(p) && self.next(p) == Some(id),
    {
        let n = self.raw_metadata.bands@.len() as int;
        let widths = self.widths();
        let edge = self.chunk_edge as int;
        let limit = self.band_group as int;
        let leaves = self.leaf_count();
        assert(id < (id + 1) * n) by (nonlinear_arith)
            requires
                id >= 0,
                n >= 1,
        ;
        lemma_row_of(id, n, id + 1);
        let node = id / n;
        let first = id % n;
        groups_divide_the_bands(widths, edge, limit, first);
        let g = self.group_spec(first);
        if node + 1 < leaves {
            lemma_row_major(node + 1, first, n, leaves);
        } else if g.0 + g.1 < n {
            lemma_next_group(widths, edge, limit, 0, first);
            lemma_row_major(0, g.0 + g.1, n, 1);
            groups_divide_the_bands(widths, edge, limit, g.0 + g.1);
            assert(group_of(widths, edge, limit, 0, g.0 + g.1 - 1) == g);
        }
        if node > 0 {
            lemma_row_major(node - 1, first, n, leaves);
            let p = (node - 1) * n + first;
            assert(p / n == node - 1 && p % n == first);
            assert(self.next(p) == Some((p / n + 1) * n + first));
        } else if first > 0 {
            groups_divide_the_bands(widths, edge, limit, first - 1);
            let p = self.group_spec(first - 1);
            lemma_row_major(leaves - 1, p.0, n, leaves);
            assert(group_of(widths, edge, limit, 0, p.0) == p);
            // The group before ends where this one begins.
            if p.0 + p.1 > first {
                assert(group_of(widths, edge, limit, 0, first) == p);
            }
            let q = (leaves - 1) * n + p.0;
            assert(q / n == leaves - 1 && q % n == p.0);
            assert(self.next(q) == Some(p.0 + p.1));
            assert(node * n == 0) by (nonlinear_arith)
                requires
                    node == 0,
            ;
            assert(id == first);
        }
    }
}

} // verus!