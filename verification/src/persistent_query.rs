//! Queries over a persistent index: what they may read and hold, and in which order.
//! Summary pages are fetched lazily only for eligible whole tiles. Raw pages are fetched once per
//! touched band group.
use vstd::prelude::*;

use crate::error::Error;
use crate::model::{ceil_div, div_ceil};
use crate::persistent::{
    BoundarySource, Header, HEADER, HIERARCHY_TILES, MAX_QUERY_BYTES, MAX_READS, RANGE,
};
use crate::persistent_joint::JointQueryOptions;
use crate::range_schedule::{buffer_bound, word, MAX_RECORDS};
use crate::text::same;

verus! {

/// How an index is queried.
pub struct QueryOptions {
    pub joint_planner: Option<JointQueryOptions>,
    pub index_path: String,
    pub raw_path: String,
    pub source_path: Option<String>,
    pub expected_build_id: Option<String>,
    pub read_memory_bytes: usize,
    pub summary_page_bytes: Option<usize>,
    pub coalesce_raw: bool,
    pub order_summaries: bool,
    pub forbidden_raw_tiles: Vec<usize>,
    pub force_direct: bool,
    pub hierarchy: Option<bool>,
}

pub open spec fn memory_ok(bytes: int) -> bool {
    1048576 <= bytes <= 134217728
}

pub open spec fn page_bytes_ok(bytes: Option<usize>) -> bool {
    match bytes {
        None => true,
        Some(n) => n == 0 || n == 4096 || n == 16384 || n == 65536,
    }
}

/// What the options of a query are refused for before anything is opened.
pub open spec fn options_refusal(q: QueryOptions) -> Option<Error> {
    if !memory_ok(q.read_memory_bytes as int) {
        Some(Error::ReadMemory)
    } else if q.forbidden_raw_tiles@.len() > 65536 {
        Some(Error::ForbiddenTiles)
    } else if !page_bytes_ok(q.summary_page_bytes) {
        Some(Error::SummaryPageBytes)
    } else {
        None
    }
}

pub fn check_options(q: &QueryOptions) -> (r: Result<(), Error>)
    ensures
        r == match options_refusal(*q) {
            Some(e) => Err::<(), Error>(e),
            None => Ok(()),
        },
{
    if q.read_memory_bytes < 1048576 || q.read_memory_bytes > 134217728 {
        return Err(Error::ReadMemory);
    }
    if q.forbidden_raw_tiles.len() > 65536 {
        return Err(Error::ForbiddenTiles);
    }
    if let Some(n) = q.summary_page_bytes {
        if n != 0 && n != 4096 && n != 16384 && n != 65536 {
            return Err(Error::SummaryPageBytes);
        }
    }
    Ok(())
}

/// An opened index is whole, and the one that was expected.
pub fn check_index(h: &Header, length: u64, expected: &Option<String>) -> (r: Result<(), Error>)
    requires
        h.valid(),
    ensures
        r == (if !(h.kind@ == crate::persistent::SUMMARIES@ && h.length() == length) {
            Err::<(), Error>(Error::TruncatedIndex)
        } else if expected matches Some(id) && id@ != h.build_id@ {
            Err(Error::BuildMismatch)
        } else {
            Ok(())
        }),
{
    if !same(h.kind.as_str(), crate::persistent::SUMMARIES) {
        return Err(Error::TruncatedIndex);
    }
    match h.file_length(true) {
        Some(n) => {
            if n != length {
                return Err(Error::TruncatedIndex);
            }
        },
        None => {
            return Err(Error::TruncatedIndex);
        },
    }
    if let Some(id) = expected {
        if !same(id.as_str(), h.build_id.as_str()) {
            return Err(Error::BuildMismatch);
        }
    }
    Ok(())
}

/// The rings of a polygon, by how many corners each has.
pub enum Outline {
    Polygon(Vec<usize>),
    MultiPolygon(Vec<Vec<usize>>),
    Other,
}

/// The corners of the first `n` rings, up to the most that a count can hold.
pub open spec fn corners(rings: Seq<usize>, n: int, count: int) -> int
    decreases n,
{
    if n <= 0 {
        count
    } else {
        let sum = corners(rings, n - 1, count) + rings[n - 1];
        if sum > usize::MAX {
            usize::MAX as int
        } else {
            sum
        }
    }
}

/// The corners after a polygon, or why it is refused.
pub open spec fn polygon_corners(rings: Seq<usize>, count: int, limit: int) -> Result<int, Error> {
    if rings.len() > 129 {
        Err(Error::HoleCount)
    } else if corners(rings, rings.len() as int, count) > limit {
        Err(Error::VertexBudget)
    } else {
        Ok(corners(rings, rings.len() as int, count))
    }
}

/// The corners of the first `n` polygons, or why one is refused.
pub open spec fn polygons_corners(polygons: Seq<Vec<usize>>, n: int, limit: int) -> Result<int, Error>
    decreases n,
{
    if n <= 0 {
        Ok(0)
    } else {
        match polygons_corners(polygons, n - 1, limit) {
            Err(e) => Err(e),
            Ok(count) => polygon_corners(polygons[n - 1]@, count, limit),
        }
    }
}

/// The corners of a geometry, or why it is refused.
pub open spec fn outline_corners(o: Outline, limit: int) -> Result<int, Error> {
    match o {
        Outline::Polygon(rings) => polygon_corners(rings@, 0, limit),
        Outline::MultiPolygon(polygons) => if polygons@.len() > 128 {
            Err(Error::ComponentCount)
        } else {
            polygons_corners(polygons@, polygons@.len() as int, limit)
        },
        Outline::Other => Err(Error::PolygonType),
    }
}

proof fn lemma_corners_grow(rings: Seq<usize>, a: int, b: int, count: int)
    requires
        0 <= a <= b <= rings.len(),
        0 <= count <= usize::MAX,
    ensures
        0 <= count <= corners(rings, a, count) <= corners(rings, b, count) <= usize::MAX,
    decreases b,
{
    if a < b {
        lemma_corners_grow(rings, a, b - 1, count);
    } else if b > 0 {
        lemma_corners_grow(rings, b - 1, b - 1, count);
    }
}

fn count_polygon(rings: &Vec<usize>, count: usize, limit: usize) -> (r: Result<usize, Error>)
    requires
        count <= limit,
    ensures
        match polygon_corners(rings@, count as int, limit as int) {
            Ok(n) => r == Ok::<usize, Error>(n as usize) && 0 <= n <= limit,
            Err(e) => r == Err::<usize, Error>(e),
        },
{
    if rings.len() > 129 {
        return Err(Error::HoleCount);
    }
    let mut total: usize = count;
    let mut i: usize = 0;
    while i < rings.len()
        invariant
            i <= rings@.len(),
            count <= limit,
            rings@.len() <= 129,
            total == corners(rings@, i as int, count as int),
            total <= limit,
        decreases rings.len() - i,
    {
        total = total.saturating_add(rings[i]);
        if total > limit {
            proof {
                lemma_corners_grow(rings@, i + 1, rings@.len() as int, count as int);
            }
            return Err(Error::VertexBudget);
        }
        i += 1;
    }
    Ok(total)
}

proof fn lemma_polygons_fail(polygons: Seq<Vec<usize>>, i: int, n: int, limit: int, e: Error)
    requires
        i <= n,
        polygons_corners(polygons, i, limit) == Err::<int, Error>(e),
    ensures
        polygons_corners(polygons, n, limit) == Err::<int, Error>(e),
    decreases n - i,
{
    if i < n {
        lemma_polygons_fail(polygons, i + 1, n, limit, e);
    }
}

/// Count the corners of a geometry before anything is allocated for them.
pub fn vertex_preflight(o: &Outline, limit: usize) -> (r: Result<usize, Error>)
    ensures
        match outline_corners(*o, limit as int) {
            Ok(n) => r == Ok::<usize, Error>(n as usize) && 0 <= n <= limit,
            Err(e) => r == Err::<usize, Error>(e),
        },
{
    match o {
        Outline::Polygon(rings) => count_polygon(rings, 0, limit),
        Outline::MultiPolygon(polygons) => {
            if polygons.len() > 128 {
                return Err(Error::ComponentCount);
            }
            let mut count: usize = 0;
            let mut i: usize = 0;
            while i < polygons.len()
                invariant
                    i <= polygons@.len(),
                    polygons@.len() <= 128,
                    *o == Outline::MultiPolygon(*polygons),
                    count <= limit,
                    polygons_corners(polygons@, i as int, limit as int) == Ok::<int, Error>(
                        count as int,
                    ),
                decreases polygons.len() - i,
            {
                match count_polygon(&polygons[i], count, limit) {
                    Ok(n) => {
                        count = n;
                    },
                    Err(e) => {
                        proof {
                            lemma_polygons_fail(
                                polygons@,
                                i + 1,
                                polygons@.len() as int,
                                limit as int,
                                e,
                            );
                        }
                        return Err(e);
                    },
                }
                i += 1;
            }
            Ok(count)
        },
        Outline::Other => Err(Error::PolygonType),
    }
}

/// What has been read.
#[derive(Clone, Copy, Debug, PartialEq, Eq, Structural)]
pub struct Trace {
    pub index_reads: usize,
    pub raw_reads: usize,
    pub index_bytes: u64,
    pub raw_bytes: u64,
    pub source_window_reads: usize,
    pub source_decoded_bytes: u64,
}

impl Trace {
    pub open spec fn reads(self) -> int {
        self.index_reads + self.raw_reads
    }

    /// Reads and bytes stay within the budget of a query.
    pub open spec fn wf(self) -> bool {
        &&& self.reads() + self.source_window_reads <= MAX_READS
        &&& self.index_bytes + self.raw_bytes + self.source_decoded_bytes <= MAX_QUERY_BYTES
    }

    pub fn new() -> (r: Trace)
        ensures
            r.wf(),
            r == (Trace {
                index_reads: 0,
                raw_reads: 0,
                index_bytes: 0,
                raw_bytes: 0,
                source_window_reads: 0,
                source_decoded_bytes: 0,
            }),
    {
        Trace {
            index_reads: 0,
            raw_reads: 0,
            index_bytes: 0,
            raw_bytes: 0,
            source_window_reads: 0,
            source_decoded_bytes: 0,
        }
    }

    /// One more read of `length` bytes stays within the budget.
    pub open spec fn affords(self, length: int) -> bool {
        &&& self.reads() + self.source_window_reads < MAX_READS
        &&& self.index_bytes + self.raw_bytes + self.source_decoded_bytes + length
            <= MAX_QUERY_BYTES
    }

    pub fn check(&self, length: usize) -> (r: Result<(), Error>)
        requires
            self.wf(),
        ensures
            r == (if self.affords(length as int) {
                Ok::<(), Error>(())
            } else {
                Err(Error::QueryIo)
            }),
    {
        let used: u64 = self.index_bytes + self.raw_bytes + self.source_decoded_bytes;
        if self.index_reads + self.raw_reads + self.source_window_reads < MAX_READS && length as u64
            <= MAX_QUERY_BYTES - used {
            Ok(())
        } else {
            Err(Error::QueryIo)
        }
    }

    /// A read of `length` bytes has been made.
    pub fn record(&mut self, index: bool, length: usize)
        requires
            old(self).wf(),
            old(self).affords(length as int),
        ensures
            final(self).wf(),
            *final(self) == (if index {
                Trace {
                    index_reads: (old(self).index_reads + 1) as usize,
                    index_bytes: (old(self).index_bytes + length) as u64,
                    ..*old(self)
                }
            } else {
                Trace {
                    raw_reads: (old(self).raw_reads + 1) as usize,
                    raw_bytes: (old(self).raw_bytes + length) as u64,
                    ..*old(self)
                }
            }),
    {
        if index {
            self.index_reads = self.index_reads + 1;
            self.index_bytes = self.index_bytes + length as u64;
        } else {
            self.raw_reads = self.raw_reads + 1;
            self.raw_bytes = self.raw_bytes + length as u64;
        }
    }

    /// One more window of an original source stays within the budget.
    pub open spec fn affords_window(self, bytes: int) -> bool {
        &&& self.source_window_reads + self.reads() < MAX_READS
        &&& self.source_decoded_bytes + self.index_bytes + bytes <= MAX_QUERY_BYTES
    }

    /// Take in a window of an original source. A query that reads one reads no raw pages.
    pub fn window(&mut self, bytes: u64) -> (r: Result<(), Error>)
        requires
            old(self).wf(),
            old(self).raw_bytes == 0,
        ensures
            final(self).wf(),
            if old(self).affords_window(bytes as int) {
                r is Ok && *final(self) == (Trace {
                    source_window_reads: (old(self).source_window_reads + 1) as usize,
                    source_decoded_bytes: (old(self).source_decoded_bytes + bytes) as u64,
                    ..*old(self)
                })
            } else {
                r == Err::<(), Error>(Error::BoundaryIo) && *final(self) == *old(self)
            },
    {
        let used: u64 = self.source_decoded_bytes + self.index_bytes;
        if self.source_window_reads + self.index_reads + self.raw_reads < MAX_READS && bytes
            <= MAX_QUERY_BYTES - used {
            self.source_window_reads = self.source_window_reads + 1;
            self.source_decoded_bytes = self.source_decoded_bytes + bytes;
            Ok(())
        } else {
            Err(Error::BoundaryIo)
        }
    }
}

/// A read lies in its file, and is not too long.
pub fn check_read(offset: u64, length: usize, total: u64) -> (r: Result<(), Error>)
    ensures
        r == (if length <= 16777216 && offset + length <= total {
            Ok::<(), Error>(())
        } else {
            Err(Error::ReadBounds)
        }),
{
    if length <= 16777216 && offset <= total && length as u64 <= total - offset {
        Ok(())
    } else {
        Err(Error::ReadBounds)
    }
}

/// The pieces that a long read is made in: each begins where the one before ends, and holds no
/// more than a transport range.
pub fn read_pieces(length: usize) -> (r: Vec<(usize, usize)>)
    requires
        length <= 16777216,
    ensures
        r@.len() == ceil_div(length as int, RANGE as int),
        forall|i: int|
            0 <= i < r@.len() ==> (#[trigger] r@[i]).0 == i * 4194304 && r@[i].1 == (if length - i
                * 4194304 < 4194304 {
                length - i * 4194304
            } else {
                4194304
            }),
{
    let mut out: Vec<(usize, usize)> = Vec::new();
    let mut at: usize = 0;
    while at < length
        invariant
            length <= 16777216,
            at == out@.len() * 4194304 || (at == length && out@.len() > 0 && (out@.len() - 1)
                * 4194304 < length <= out@.len() * 4194304),
            at <= length,
            forall|i: int|
                0 <= i < out@.len() ==> (#[trigger] out@[i]).0 == i * 4194304 && out@[i].1 == (
                if length - i * 4194304 < 4194304 {
                    length - i * 4194304
                } else {
                    4194304
                }),
        decreases length - at,
    {
        let rest: usize = length - at;
        let n: usize = if rest < RANGE {
            rest
        } else {
            RANGE
        };
        out.push((at, n));
        at = at + n;
    }
    out
}

/// What a query may hold and how it reads.
#[derive(Clone, Copy, Debug, PartialEq, Eq, Structural)]
pub struct Buffers {
    pub base: usize,
    pub max_raw_groups: usize,
    pub total: usize,
}

/// What the memory of a query depends on.
#[derive(Clone, Copy, Debug, PartialEq, Eq, Structural)]
pub struct Needs {
    pub selected_bands: usize,
    pub read_bands: usize,
    pub vertices: usize,
    /// Bytes that one band's accumulator keeps, and that all need for a moment.
    pub accumulator: usize,
    pub transient: usize,
    pub joint: usize,
    pub order_summaries: bool,
    pub remote_raw: bool,
}

/// The summaries that a query may schedule.
pub open spec fn schedule_limit(h: Header) -> int {
    if h.record_count() < MAX_RECORDS {
        h.record_count()
    } else {
        MAX_RECORDS as int
    }
}

/// Bytes that a query holds apart from its accumulators and its reader.
pub open spec fn plain_base(h: Header, n: Needs) -> int {
    h.tile_edge * h.tile_edge * (n.read_bands * 9 + 24) + 2 * HEADER + 65536 + (if n.remote_raw {
        65536 + if h.raw_bytes() > RANGE {
            RANGE as int
        } else {
            0
        }
    } else {
        0
    }) + n.vertices * 8192 + if n.order_summaries {
        word() * (6 * schedule_limit(h) + 3 * (schedule_limit(h) + 1))
    } else {
        0
    }
}

pub open spec fn accumulators(n: Needs) -> int {
    n.accumulator * n.selected_bands + n.transient
}

pub open spec fn base_of(h: Header, n: Needs) -> int {
    plain_base(h, n) + accumulators(n) + n.joint
}

/// How many raw pages one read may take.
pub open spec fn raw_groups_of(h: Header, q: QueryOptions, n: Needs) -> int {
    if q.coalesce_raw && q.joint_planner is None {
        let left = if q.read_memory_bytes > base_of(h, n) {
            q.read_memory_bytes - base_of(h, n)
        } else {
            0
        };
        let pages = (if left < RANGE {
            left
        } else {
            RANGE as int
        }) / h.raw_bytes();
        let some = if pages < 1 {
            1
        } else {
            pages
        };
        let few = if some < n.read_bands {
            some
        } else {
            n.read_bands as int
        };
        if few < h.group_count() {
            few
        } else {
            h.group_count()
        }
    } else {
        1
    }
}

/// What a query's buffers are refused for, or what they are. `reader` is what the reader of an
/// original source needs for a window of one tile.
pub open spec fn buffers_of(h: Header, q: QueryOptions, n: Needs, reader: Option<Result<usize, Error>>) -> Result<
    Buffers,
    Error,
> {
    let groups = raw_groups_of(h, q, n);
    if accumulators(n) > usize::MAX {
        Err(Error::AccumulatorOverflow)
    } else if base_of(h, n) > usize::MAX {
        Err(Error::BufferOverflow)
    } else {
        let held = match reader {
            Some(Err(e)) => Err(e),
            Some(Ok(b)) => Ok(b as int),
            None => Ok(groups * h.raw_bytes()),
        };
        match held {
            Err(e) => Err(e),
            Ok(b) => if base_of(h, n) + b > usize::MAX {
                Err(Error::ReaderOverflow)
            } else if base_of(h, n) + b > q.read_memory_bytes {
                Err(Error::QueryMemory)
            } else {
                Ok(
                    Buffers {
                        base: base_of(h, n) as usize,
                        max_raw_groups: groups as usize,
                        total: (base_of(h, n) + b) as usize,
                    },
                )
            },
        }
    }
}

fn plain_bytes(h: &Header, n: Needs) -> (r: usize)
    requires
        h.shaped(),
        h.record_count() <= usize::MAX,
        plain_base(*h, n) <= usize::MAX,
    ensures
        r == plain_base(*h, n),
{
    let e: usize = h.tile_edge;
    assert(e * e <= 65536) by (nonlinear_arith)
        requires
            e <= 256,
    ;
    let square: usize = e * e;
    let raw: usize = h.raw_size();
    let ghost cells = square * (n.read_bands * 9 + 24);
    assert(cells >= n.read_bands * 9 + 24) by (nonlinear_arith)
        requires
            cells == square * (n.read_bands * 9 + 24),
            square >= 256,
            n.read_bands >= 0,
    {
        assert(square * (n.read_bands * 9 + 24) >= 1 * (n.read_bands * 9 + 24));
    }
    assert(e * e >= 256) by (nonlinear_arith)
        requires
            e >= 16,
    ;
    proof {
        h.lemma_shape();
    }
    let ghost limit = schedule_limit(*h);
    let ghost scheduled = word() * (6 * limit + 3 * (limit + 1));
    assert(scheduled >= 0) by (nonlinear_arith)
        requires
            word() >= 0,
            limit >= 0,
            scheduled == word() * (6 * limit + 3 * (limit + 1)),
    ;
    let mut bytes: usize = square * (n.read_bands * 9 + 24) + 2 * HEADER + 65536;
    if n.remote_raw {
        bytes = bytes + 65536;
        if raw > RANGE {
            bytes = bytes + RANGE;
        }
    }
    bytes = bytes + n.vertices * 8192;
    if n.order_summaries {
        let records: usize = match h.summary_records() {
            Ok(records) => records,
            Err(_) => 0,
        };
        let count: usize = if records < MAX_RECORDS {
            records
        } else {
            MAX_RECORDS
        };
        bytes = bytes + buffer_bound(count);
    }
    bytes
}

/// The buffers of a query, if they fit its memory.
pub fn plan_buffers(h: &Header, q: &QueryOptions, n: Needs, reader: Option<Result<usize, Error>>) -> (r:
    Result<Buffers, Error>)
    requires
        h.shaped(),
        h.record_count() <= usize::MAX,
        plain_base(*h, n) <= usize::MAX,
        n.read_bands >= 1,
    ensures
        r == buffers_of(*h, *q, n, reader),
{
    let kept: usize = match n.accumulator.checked_mul(n.selected_bands) {
        Some(kept) => kept,
        None => {
            return Err(Error::AccumulatorOverflow);
        },
    };
    let all: usize = match kept.checked_add(n.transient) {
        Some(all) => all,
        None => {
            return Err(Error::AccumulatorOverflow);
        },
    };
    let plain: usize = plain_bytes(h, n);
    let with: usize = match plain.checked_add(all) {
        Some(with) => with,
        None => {
            return Err(Error::BufferOverflow);
        },
    };
    let base: usize = match with.checked_add(n.joint) {
        Some(base) => base,
        None => {
            return Err(Error::BufferOverflow);
        },
    };
    let page: usize = h.raw_size();
    let total_groups: usize = h.groups();
    let groups: usize = if q.coalesce_raw && q.joint_planner.is_none() {
        let left: usize = if q.read_memory_bytes > base {
            q.read_memory_bytes - base
        } else {
            0
        };
        let most: usize = if left < RANGE {
            left
        } else {
            RANGE
        };
        let pages: usize = most / page;
        let some: usize = if pages < 1 {
            1
        } else {
            pages
        };
        let few: usize = if some < n.read_bands {
            some
        } else {
            n.read_bands
        };
        if few < total_groups {
            few
        } else {
            total_groups
        }
    } else {
        1
    };
    assert(groups == raw_groups_of(*h, *q, n));
    assert(0 <= groups * page <= 20 * 11796512) by (nonlinear_arith)
        requires
            0 <= groups <= 20,
            0 <= page <= 11796512,
    ;
    let held: usize = match reader {
        Some(bound) => bound?,
        None => groups * page,
    };
    match base.checked_add(held) {
        None => Err(Error::ReaderOverflow),
        Some(total) => if total > q.read_memory_bytes {
            Err(Error::QueryMemory)
        } else {
            Ok(Buffers { base, max_raw_groups: groups, total })
        },
    }
}

/// The joint planner takes normalized pages and eligible statistics, and walks the forest.
pub fn check_joint(q: &QueryOptions, boundary: BoundarySource, eligible: bool) -> (r: Result<(), Error>)
    ensures
        r == (if q.joint_planner is None {
            Ok::<(), Error>(())
        } else if boundary == BoundarySource::Original {
            Err(Error::JointOriginal)
        } else if q.force_direct || !eligible {
            Err(Error::JointStatistics)
        } else if q.hierarchy == Some(false) {
            Err(Error::JointFlat)
        } else {
            Ok(())
        }),
{
    if q.joint_planner.is_none() {
        return Ok(());
    }
    match boundary {
        BoundarySource::Original => {
            return Err(Error::JointOriginal);
        },
        BoundarySource::Normalized => {},
    }
    if q.force_direct || !eligible {
        return Err(Error::JointStatistics);
    }
    if let Some(wanted) = q.hierarchy {
        if !wanted {
            return Err(Error::JointFlat);
        }
    }
    Ok(())
}

/// How a query walks the index.
#[derive(Clone, Copy, Debug, PartialEq, Eq, Structural)]
pub struct Traversal {
    pub eligible: bool,
    pub hierarchical: bool,
    pub summary_page_bytes: usize,
    pub order_summaries: bool,
}

/// The relation of the whole grid is worth asking for.
pub open spec fn asks_whole_grid(h: Header, q: QueryOptions, summaries: bool, remote: bool) -> bool {
    q.hierarchy is None && !q.force_direct && summaries && remote && h.algorithm_version@
        == HIERARCHY_TILES@
}

pub fn checks_root(h: &Header, q: &QueryOptions, summaries: bool, remote: bool) -> (r: bool)
    ensures
        r == asks_whole_grid(*h, *q, summaries, remote),
{
    q.hierarchy.is_none() && !q.force_direct && summaries && remote && same(
        h.algorithm_version.as_str(),
        HIERARCHY_TILES,
    )
}

/// How a query walks: a prepared hierarchy from its root where the index is local or the whole
/// grid lies inside, and flat tiles with bounded read-ahead where a remote query is partial.
/// `whole` says that the whole grid was asked for and lies inside.
pub open spec fn traversal_of(h: Header, q: QueryOptions, summaries: bool, remote: bool, whole: bool) -> Result<
    Traversal,
    Error,
> {
    let eligible = !q.force_direct && summaries;
    let prepared = h.algorithm_version@ == HIERARCHY_TILES@;
    let hierarchical = eligible && match q.hierarchy {
        Some(wanted) => wanted,
        None => prepared && (!remote || (asks_whole_grid(h, q, summaries, remote) && whole)),
    };
    if hierarchical && !prepared {
        Err(Error::HierarchyIndex)
    } else {
        Ok(
            Traversal {
                eligible,
                hierarchical,
                summary_page_bytes: match q.summary_page_bytes {
                    Some(n) => n,
                    None => if remote && !hierarchical {
                        65536
                    } else {
                        0
                    },
                },
                order_summaries: q.joint_planner is None && q.order_summaries && eligible,
            },
        )
    }
}

pub fn choose_traversal(h: &Header, q: &QueryOptions, summaries: bool, remote: bool, whole: bool) -> (r:
    Result<Traversal, Error>)
    ensures
        r == traversal_of(*h, *q, summaries, remote, whole),
        !summaries || q.force_direct ==> takes_no_summary(r),
        r matches Ok(t) ==> t.hierarchical ==> t.eligible && h.algorithm_version@
            == HIERARCHY_TILES@,
        r matches Ok(t) ==> t.order_summaries ==> t.eligible,
{
    let eligible = !q.force_direct && summaries;
    let prepared = same(h.algorithm_version.as_str(), HIERARCHY_TILES);
    let hierarchical = eligible && match q.hierarchy {
        Some(wanted) => wanted,
        None => prepared && (!remote || (checks_root(h, q, summaries, remote) && whole)),
    };
    if hierarchical && !prepared {
        return Err(Error::HierarchyIndex);
    }
    let summary_page_bytes: usize = match q.summary_page_bytes {
        Some(n) => n,
        None => if remote && !hierarchical {
            65536
        } else {
            0
        },
    };
    Ok(
        Traversal {
            eligible,
            hierarchical,
            summary_page_bytes,
            order_summaries: q.joint_planner.is_none() && q.order_summaries && eligible,
        },
    )
}

/// A choice under which every cell that the geometry touches is read from raw pages.
pub open spec fn takes_no_summary(r: Result<Traversal, Error>) -> bool {
    r matches Ok(t) && !t.eligible && !t.hierarchical && !t.order_summaries
}

/// Statistics that the stored summaries do not hold never take a summary, whatever the index and
/// the options are: the choice succeeds, and neither a hierarchy nor a schedule of summaries is
/// walked.
pub proof fn statistics_without_summaries_take_none(
    h: Header,
    q: QueryOptions,
    remote: bool,
    whole: bool,
)
    ensures
        takes_no_summary(traversal_of(h, q, false, remote, whole)),
        !asks_whole_grid(h, q, false, remote),
{
}

/// A query that is to read directly takes no summary either.
pub proof fn a_direct_query_takes_no_summary(
    h: Header,
    q: QueryOptions,
    summaries: bool,
    remote: bool,
    whole: bool,
)
    requires
        q.force_direct,
    ensures
        takes_no_summary(traversal_of(h, q, summaries, remote, whole)),
        !asks_whole_grid(h, q, summaries, remote),
{
}

/// Summaries that hold the statistics are used unless the query reads directly. A prepared
/// hierarchy is walked from its root on a local index and never against the query's wish, and a
/// remote query that does not take in the whole grid walks flat tiles with read-ahead. Only a
/// hierarchy that the index was not prepared for is refused.
pub proof fn summaries_are_used_where_they_answer(
    h: Header,
    q: QueryOptions,
    remote: bool,
    whole: bool,
)
    requires
        !q.force_direct,
    ensures
        traversal_of(h, q, true, remote, whole) is Err <==> q.hierarchy == Some(true)
            && h.algorithm_version@ != HIERARCHY_TILES@,
        traversal_of(h, q, true, remote, whole) matches Err(e) ==> e == Error::HierarchyIndex,
        traversal_of(h, q, true, remote, whole) matches Ok(t) ==> {
            &&& t.eligible
            &&& t.order_summaries <==> q.order_summaries && q.joint_planner is None
            &&& q.hierarchy matches Some(wanted) ==> t.hierarchical == wanted
            &&& q.hierarchy is None && !remote ==> t.hierarchical == (h.algorithm_version@
                == HIERARCHY_TILES@)
            &&& q.hierarchy is None && remote ==> t.hierarchical == (whole && h.algorithm_version@
                == HIERARCHY_TILES@)
            &&& q.summary_page_bytes matches Some(n) ==> t.summary_page_bytes == n
            &&& q.summary_page_bytes is None && remote && !t.hierarchical ==> t.summary_page_bytes
                == 65536
            &&& q.summary_page_bytes is None && (!remote || t.hierarchical)
                ==> t.summary_page_bytes == 0
        },
        asks_whole_grid(h, q, true, remote) <==> q.hierarchy is None && remote
            && h.algorithm_version@ == HIERARCHY_TILES@,
{
}

/// The most predicate work that a query may do.
pub const WORK_LIMIT: usize = 100000000;

/// The tiles that a window of cells touches.
pub open spec fn window_tiles(edge: int, window: (int, int, int, int)) -> int {
    (ceil_div(window.3, edge) - window.1 / edge) * (ceil_div(window.2, edge) - window.0 / edge)
}

/// The predicate of a query is asked no more often than its budget allows.
pub fn check_predicate_work(
    h: &Header,
    hierarchical: bool,
    window: (usize, usize, usize, usize),
    vertices: usize,
) -> (r: Result<(), Error>)
    requires
        h.shaped(),
        h.record_count() <= usize::MAX,
        window.0 <= window.2 <= h.grid.width,
        window.1 <= window.3 <= h.grid.height,
    ensures
        r == (if (if hierarchical {
            h.record_count()
        } else {
            window_tiles(
                h.tile_edge as int,
                (window.0 as int, window.1 as int, window.2 as int, window.3 as int),
            )
        }) * vertices <= WORK_LIMIT {
            Ok::<(), Error>(())
        } else {
            Err(Error::PredicateWork)
        }),
{
    proof {
        h.lemma_shape();
    }
    let e: usize = h.tile_edge;
    let nodes: u128;
    if hierarchical {
        nodes = match h.summary_records() {
            Ok(n) => n as u128,
            Err(_) => 0,
        };
    } else {
        let right: usize = div_ceil(window.2, e);
        let bottom: usize = div_ceil(window.3, e);
        proof {
            crate::model::lemma_ceil_div(window.2 as int, e as int);
            crate::model::lemma_ceil_div(window.3 as int, e as int);
            lemma_first_tile(window.0 as int, window.2 as int, e as int);
            lemma_first_tile(window.1 as int, window.3 as int, e as int);
        }
        let across: u128 = (right - window.0 / e) as u128;
        let down: u128 = (bottom - window.1 / e) as u128;
        assert(0 <= down * across <= 0x7fff_ffff * 0x7fff_ffff) by (nonlinear_arith)
            requires
                0 <= down <= 0x7fff_ffff,
                0 <= across <= 0x7fff_ffff,
        ;
        nodes = down * across;
    }
    let v: u128 = vertices as u128;
    assert(0 <= nodes * v <= u128::MAX) by (nonlinear_arith)
        requires
            0 <= nodes <= 0xffff_ffff_ffff_ffff,
            0 <= v <= 0xffff_ffff_ffff_ffff,
    ;
    if nodes * v <= WORK_LIMIT as u128 {
        Ok(())
    } else {
        Err(Error::PredicateWork)
    }
}

proof fn lemma_first_tile(a: int, b: int, e: int)
    requires
        0 <= a <= b,
        e > 0,
    ensures
        a / e <= ceil_div(b, e),
{
    vstd::arithmetic::div_mod::lemma_div_is_ordered(a, b + e - 1, e);
}

/// Boundary work after one more tile, or that the budget is exceeded.
pub fn add_boundary_work(work: usize, cells: usize, vertices: usize) -> (r: Result<usize, Error>)
    requires
        work <= WORK_LIMIT,
    ensures
        r == (if work + cells * vertices <= WORK_LIMIT {
            Ok::<usize, Error>((work + cells * vertices) as usize)
        } else {
            Err(Error::BoundaryWork)
        }),
{
    let c: u128 = cells as u128;
    let v: u128 = vertices as u128;
    assert(0 <= c * v <= 0xffff_ffff_ffff_ffff * 0xffff_ffff_ffff_ffff) by (nonlinear_arith)
        requires
            0 <= c <= 0xffff_ffff_ffff_ffff,
            0 <= v <= 0xffff_ffff_ffff_ffff,
    ;
    let total: u128 = work as u128 + c * v;
    if total <= WORK_LIMIT as u128 {
        Ok(total as usize)
    } else {
        Err(Error::BoundaryWork)
    }
}

/// Whether a boundary tile is read: not where none of its cells is touched, and never where its
/// raw page is forbidden.
pub open spec fn boundary_of(q: QueryOptions, tile: usize, cells: int) -> Result<bool, Error> {
    if cells == 0 {
        Ok(false)
    } else if q.forbidden_raw_tiles@.contains(tile) {
        Err(Error::ForbiddenRead)
    } else {
        Ok(true)
    }
}

pub fn boundary_step(q: &QueryOptions, tile: usize, cells: usize) -> (r: Result<bool, Error>)
    ensures
        r == boundary_of(*q, tile, cells as int),
{
    if cells == 0 {
        return Ok(false);
    }
    let mut i: usize = 0;
    while i < q.forbidden_raw_tiles.len()
        invariant
            cells != 0,
            i <= q.forbidden_raw_tiles@.len(),
            forall|k: int| 0 <= k < i ==> q.forbidden_raw_tiles@[k] != tile,
        decreases q.forbidden_raw_tiles@.len() - i,
    {
        if q.forbidden_raw_tiles[i] == tile {
            assert(q.forbidden_raw_tiles@[i as int] == tile);
            return Err(Error::ForbiddenRead);
        }
        i += 1;
    }
    Ok(true)
}

} // verus!
