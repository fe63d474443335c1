//! Exact preparation of ranges that an ordinary read will ask for. Returned windows, decoding
//! and numerical consumption remain in the ordinary path.
use vstd::prelude::*;

use crate::bytes::{u32_at, u64_at};
use crate::error::Error;
use crate::model::{ceil_div, div_ceil};
use crate::skv_group::MAX_BYTES;
use crate::skv_reader::MAX_READS;
use crate::skv_window::{
    all_wf, led, pending_range_fits, range_fits, selected_group_members, Pending,
};
use crate::source_vsi::{arrange, arranged, is_spaced, spaced};

verus! {

/// The most ranges that are prepared together.
pub const MAX_DEMANDS: usize = 128;

/// A range that grows while payloads continue it: where it begins, how long it is, and how
/// many entries it serves. One that serves none is empty.
#[derive(Clone, Copy, Debug, PartialEq, Eq, Structural)]
pub struct Span {
    pub offset: u64,
    pub length: usize,
    pub count: usize,
}

/// What is known of the demands of a read: the closed ranges and the growing one, or that
/// there are too many.
#[derive(Debug)]
pub struct Demands {
    pub ranges: Vec<(u64, u64)>,
    pub span: Span,
    pub declined: bool,
}

/// The same, as values.
pub struct DemandView {
    pub ranges: Seq<(u64, u64)>,
    pub span: Span,
    pub declined: bool,
}

impl Demands {
    pub open spec fn now(&self) -> DemandView {
        DemandView { ranges: self.ranges@, span: self.span, declined: self.declined }
    }

    /// A growing range lies within the object.
    pub open spec fn wf(&self) -> bool {
        &&& self.ranges@.len() <= MAX_DEMANDS
        &&& self.span.offset + self.span.length <= u64::MAX
        &&& self.span.count <= 1048576
        &&& self.span.length <= u32::MAX
    }

    pub fn new() -> (r: Demands)
        ensures
            r.now() == empty_demands(),
            r.wf(),
    {
        let r = Demands {
            ranges: Vec::new(),
            span: Span { offset: 0, length: 0, count: 0 },
            declined: false,
        };
        assert(r.ranges@ =~= Seq::<(u64, u64)>::empty());
        r
    }
}

pub open spec fn empty_demands() -> DemandView {
    DemandView {
        ranges: Seq::empty(),
        span: Span { offset: 0, length: 0, count: 0 },
        declined: false,
    }
}

/// The demands with one payload more, which serves `members` entries.
pub open spec fn with_payload(d: DemandView, entry: &Pending, members: int, limit: int) -> Result<
    DemandView,
    Error,
> {
    let size = entry.size();
    if d.declined {
        Ok(d)
    } else if size > limit {
        Err(Error::PayloadRange)
    } else if d.span.count > 0 && range_fits(
        d.span.offset as int,
        d.span.length as int,
        d.span.count as int,
        entry,
        members,
        limit,
    ) {
        Ok(
            DemandView {
                span: Span {
                    length: (d.span.length + size) as usize,
                    count: (d.span.count + members) as usize,
                    ..d.span
                },
                ..d
            },
        )
    } else if d.span.count > 0 && d.ranges.len() == MAX_DEMANDS {
        Ok(DemandView { declined: true, ..d })
    } else {
        Ok(
            DemandView {
                ranges: if d.span.count > 0 {
                    d.ranges.push((d.span.offset, d.span.length as u64))
                } else {
                    d.ranges
                },
                span: Span {
                    offset: entry.begin() as u64,
                    length: size as usize,
                    count: members as usize,
                },
                declined: false,
            },
        )
    }
}

/// How many entries from `i` on share the payload of entry `i`.
pub open spec fn members_at(entries: Seq<Pending>, grouped: bool, i: int) -> int {
    1 + if grouped {
        led(entries.skip(i + 1), entries[i].leader())
    } else {
        0
    }
}

/// The demands with the payloads of the entries from `i` on.
pub open spec fn with_entries(
    d: DemandView,
    entries: Seq<Pending>,
    grouped: bool,
    limit: int,
    i: int,
) -> Result<DemandView, Error>
    decreases entries.len() - i,
{
    if i < 0 || i >= entries.len() {
        Ok(d)
    } else {
        let members = members_at(entries, grouped, i);
        match with_payload(d, &entries[i], members, limit) {
            Err(e) => Err(e),
            Ok(next) => if members < 1 || i + members > entries.len() {
                Ok(next)
            } else {
                with_entries(next, entries, grouped, limit, i + members)
            },
        }
    }
}

proof fn lemma_led(entries: Seq<Pending>, leader: int)
    ensures
        0 <= led(entries, leader) <= entries.len(),
    decreases entries.len(),
{
    if entries.len() > 0 && entries[0].leader() == leader {
        lemma_led(entries.drop_first(), leader);
    }
}

/// The entries of a tile lie in the object, and each payload in itself.
pub open spec fn in_object(entries: Seq<Pending>) -> bool {
    forall|i: int|
        0 <= i < entries.len() ==> (#[trigger] entries[i]).begin() + entries[i].size() <= u64::MAX
}

impl Demands {
    /// Add the payload of an entry.
    fn take(&mut self, entry: &Pending, members: usize, limit: usize) -> (r: Result<(), Error>)
        requires
            old(self).wf(),
            entry.wf(),
            entry.begin() + entry.size() <= u64::MAX,
            1 <= members <= 4096,
            limit <= 16777216,
        ensures
            match with_payload(old(self).now(), entry, members as int, limit as int) {
                Err(e) => r == Err::<(), Error>(e),
                Ok(next) => r is Ok && final(self).now() == next && final(self).wf(),
            },
    {
        if self.declined {
            return Ok(());
        }
        proof {
            crate::bytes::lemma_limits();
            crate::bytes::lemma_le_limit(entry.record@.subrange(8, 12));
        }
        let size: usize = u32_at(entry.record.as_slice(), 8) as usize;
        if size > limit {
            return Err(Error::PayloadRange);
        }
        if self.span.count > 0 {
            if pending_range_fits(
                self.span.offset,
                self.span.length,
                self.span.count,
                entry,
                members,
                limit,
            ) {
                self.span = Span {
                    offset: self.span.offset,
                    length: self.span.length + size,
                    count: self.span.count + members,
                };
                return Ok(());
            }
            if self.ranges.len() == MAX_DEMANDS {
                self.declined = true;
                return Ok(());
            }
            self.ranges.push((self.span.offset, self.span.length as u64));
        }
        self.span = Span {
            offset: u64_at(entry.record.as_slice(), 0),
            length: size,
            count: members,
        };
        Ok(())
    }

    /// Add the payloads of the entries of a tile, which stand in the order of their payloads.
    pub fn tile(&mut self, entries: &[Pending], grouped: bool, limit: usize) -> (r: Result<
        (),
        Error,
    >)
        requires
            old(self).wf(),
            all_wf(entries@),
            in_object(entries@),
            entries@.len() <= 64,
            limit <= 16777216,
        ensures
            match with_entries(old(self).now(), entries@, grouped, limit as int, 0) {
                Err(e) => r == Err::<(), Error>(e),
                Ok(next) => r is Ok && final(self).now() == next && final(self).wf(),
            },
    {
        let n: usize = entries.len();
        let ghost start = self.now();
        let mut i: usize = 0;
        while i < n
            invariant
                i <= n,
                n == entries@.len(),
                n <= 64,
                self.wf(),
                all_wf(entries@),
                in_object(entries@),
                limit <= 16777216,
                start == old(self).now(),
                with_entries(start, entries@, grouped, limit as int, 0) == with_entries(
                    self.now(),
                    entries@,
                    grouped,
                    limit as int,
                    i as int,
                ),
            decreases n - i,
        {
            let rest = vstd::slice::slice_subrange(entries, i + 1, n);
            proof {
                assert(rest@ =~= entries@.skip(i + 1));
                assert(all_wf(rest@)) by {
                    assert forall|k: int| 0 <= k < rest@.len() implies (#[trigger] rest@[k]).wf() by {
                        assert(entries@[i + 1 + k].wf());
                    }
                }
                assert(entries@[i as int].wf());
                lemma_led(entries@.skip(i + 1), entries@[i as int].leader());
            }
            let members: usize = selected_group_members(grouped, &entries[i], rest);
            match self.take(&entries[i], members, limit) {
                Ok(()) => {},
                Err(e) => return Err(e),
            }
            i = i + members;
        }
        Ok(())
    }

    /// The ranges with the growing one, where there are not too many.
    pub fn close(self) -> (r: Option<Vec<(u64, u64)>>)
        requires
            self.wf(),
        ensures
            match closed(self.now()) {
                Some(ranges) => r matches Some(found) && found@ == ranges,
                None => r is None,
            },
    {
        if self.declined {
            return None;
        }
        let span = self.span;
        let mut ranges = self.ranges;
        if span.count > 0 {
            if ranges.len() == MAX_DEMANDS {
                return None;
            }
            ranges.push((span.offset, span.length as u64));
        }
        Some(ranges)
    }
}

/// All ranges of the demands, where there are not too many.
pub open spec fn closed(d: DemandView) -> Option<Seq<(u64, u64)>> {
    if d.declined {
        None
    } else if d.span.count == 0 {
        Some(d.ranges)
    } else if d.ranges.len() == MAX_DEMANDS {
        None
    } else {
        Some(d.ranges.push((d.span.offset, d.span.length as u64)))
    }
}

/// The largest range of a read: what the transport reads at once, and no more than a packet
/// where bands share packets.
pub fn demand_limit(raw_range_limit: usize, grouped: bool) -> (r: usize)
    ensures
        r == if grouped && raw_range_limit > MAX_BYTES {
            MAX_BYTES
        } else {
            raw_range_limit
        },
{
    if grouped && raw_range_limit > MAX_BYTES {
        MAX_BYTES
    } else {
        raw_range_limit
    }
}

/// The tiles that a window touches in one direction.
pub open spec fn touched(at: int, size: int, edge: int) -> int {
    (at + size - 1) / edge - at / edge + 1
}

/// Whether the ranges of a window are prepared: it touches more than one tile or band, but not
/// more than 128 tiles.
pub open spec fn worth_preparing(window: (int, int, int, int), edge: int, bands: int) -> bool {
    let tiles = touched(window.0, window.2, edge) * touched(window.1, window.3, edge);
    tiles <= 128 && !(tiles == 1 && bands == 1)
}

pub fn prepares_window(x: usize, y: usize, w: usize, h: usize, edge: usize, bands: usize) -> (r: Result<
    bool,
    Error,
>)
    requires
        edge > 0,
        w > 0,
        h > 0,
        x + w <= usize::MAX,
        y + h <= usize::MAX,
    ensures
        ({
            let tiles = touched(x as int, w as int, edge as int) * touched(
                y as int,
                h as int,
                edge as int,
            );
            if tiles > usize::MAX {
                r == Err::<bool, Error>(Error::SkvPlan)
            } else {
                r == Ok::<bool, Error>(
                    worth_preparing(
                        (x as int, y as int, w as int, h as int),
                        edge as int,
                        bands as int,
                    ),
                )
            }
        }),
{
    proof {
        lemma_touched(x as int, w as int, edge as int);
        lemma_touched(y as int, h as int, edge as int);
    }
    let across: usize = (x + w - 1) / edge - x / edge + 1;
    let down: usize = (y + h - 1) / edge - y / edge + 1;
    match across.checked_mul(down) {
        None => Err(Error::SkvPlan),
        Some(tiles) => Ok(tiles <= 128 && !(tiles == 1 && bands == 1)),
    }
}

proof fn lemma_touched(at: int, size: int, edge: int)
    requires
        0 <= at,
        1 <= size,
        1 <= edge,
    ensures
        0 <= at / edge <= (at + size - 1) / edge <= at + size - 1,
        1 <= touched(at, size, edge) <= size,
{
    vstd::arithmetic::div_mod::lemma_fundamental_div_mod(at, edge);
    vstd::arithmetic::div_mod::lemma_fundamental_div_mod(at + size - 1, edge);
    let p = at / edge;
    let q = (at + size - 1) / edge;
    assert(0 <= p <= q <= at + size - 1 && q - p <= size - 1) by (nonlinear_arith)
        requires
            edge >= 1,
            size >= 1,
            at >= 0,
            at == edge * p + at % edge,
            0 <= at % edge < edge,
            at + size - 1 == edge * q + (at + size - 1) % edge,
            0 <= (at + size - 1) % edge < edge,
    ;
}

/// The ranges that are prepared for a window: in order, each once, and none where two overlap.
pub fn window_ranges(demands: Demands) -> (r: Option<Vec<(u64, u64)>>)
    requires
        demands.wf(),
    ensures
        match closed(demands.now()) {
            None => r is None,
            Some(ranges) => match r {
                Some(found) => arranged(found@, ranges) && spaced(found@),
                None => exists|d: Seq<(u64, u64)>| #[trigger] arranged(d, ranges) && !spaced(d),
            },
        },
{
    let ranges = match demands.close() {
        Some(ranges) => ranges,
        None => return None,
    };
    let found = arrange(ranges.as_slice());
    if is_spaced(found.as_slice()) {
        Some(found)
    } else {
        assert(arranged(found@, ranges@) && !spaced(found@));
        None
    }
}

/// The tile of a window that covers exactly one tile.
pub open spec fn whole_tile(
    window: (int, int, int, int),
    edge: int,
    width: int,
    height: int,
) -> Option<int> {
    let (x, y, w, h) = window;
    let nx = ceil_div(width, edge);
    if x % edge == 0 && y % edge == 0 && w == (if edge < width - x {
        edge
    } else {
        width - x
    }) && h == (if edge < height - y {
        edge
    } else {
        height - y
    }) {
        Some(y / edge * nx + x / edge)
    } else {
        None
    }
}

/// Two windows that are neighbouring tiles.
pub open spec fn neighbours(
    a: (int, int, int, int),
    b: (int, int, int, int),
    edge: int,
    width: int,
    height: int,
) -> bool {
    match (whole_tile(a, edge, width, height), whole_tile(b, edge, width, height)) {
        (Some(p), Some(q)) => p - q == 1 || q - p == 1,
        _ => false,
    }
}

/// The tile of a window that covers exactly one tile.
pub fn tile_of(x: usize, y: usize, w: usize, h: usize, edge: usize, width: usize, height: usize) -> (r:
    Option<usize>)
    requires
        1 <= edge <= 256,
        x + w <= width,
        y + h <= height,
        w > 0,
        h > 0,
        width <= 0x7fff_ffff,
        height <= 0x7fff_ffff,
        ceil_div(width as int, edge as int) * ceil_div(height as int, edge as int) <= usize::MAX,
    ensures
        match whole_tile(
            (x as int, y as int, w as int, h as int),
            edge as int,
            width as int,
            height as int,
        ) {
            Some(tile) => r matches Some(found) && found == tile,
            None => r is None,
        },
{
    let cols: usize = if edge < width - x {
        edge
    } else {
        width - x
    };
    let rows: usize = if edge < height - y {
        edge
    } else {
        height - y
    };
    if !(x % edge == 0 && y % edge == 0 && w == cols && h == rows) {
        return None;
    }
    let nx: usize = div_ceil(width, edge);
    proof {
        let e = edge as int;
        let ty = y as int / e;
        let tx = x as int / e;
        let ny = ceil_div(height as int, e);
        crate::model::lemma_ceil_div(width as int, e);
        crate::model::lemma_ceil_div(height as int, e);
        vstd::arithmetic::div_mod::lemma_fundamental_div_mod(y as int, e);
        vstd::arithmetic::div_mod::lemma_fundamental_div_mod(x as int, e);
        assert(ty * e == e * ty) by (nonlinear_arith);
        assert(tx * e == e * tx) by (nonlinear_arith);
        assert((ty < ny) == (ty * e < height));
        assert((tx < ceil_div(width as int, e)) == (tx * e < width));
        crate::index::lemma_row_major(ty, tx, nx as int, ny);
        assert(nx * ny == ny * nx) by (nonlinear_arith);
        assert(0 <= ty && 0 <= tx) by {
            vstd::arithmetic::div_mod::lemma_div_pos_is_pos(y as int, e);
            vstd::arithmetic::div_mod::lemma_div_pos_is_pos(x as int, e);
        }
        assert(ty * nx >= 0) by (nonlinear_arith)
            requires
                ty >= 0,
                nx >= 0,
        ;
    }
    Some(y / edge * nx + x / edge)
}

/// Whether a pair of tiles is prepared after the reads so far: they are neighbours, and the
/// extra reads leave room for the ordinary ones.
pub fn prepares_pair(a: usize, b: usize) -> (r: bool)
    ensures
        r == (a - b == 1 || b - a == 1),
{
    if a > b {
        a - b == 1
    } else {
        b - a == 1
    }
}

/// The ranges that are prepared for a pair of tiles, in order and each once, where there are
/// not more than may be.
pub fn pair_ranges(first: &Vec<(u64, u64)>, second: &Vec<(u64, u64)>) -> (r: Result<
    Vec<(u64, u64)>,
    Error,
>)
    ensures
        match r {
            Ok(found) => arranged(found@, first@ + second@) && found@.len() <= MAX_DEMANDS,
            Err(e) => e == Error::SkvPrefetch && exists|d: Seq<(u64, u64)>| #[trigger]
                arranged(d, first@ + second@) && d.len() > MAX_DEMANDS,
        },
{
    let mut both: Vec<(u64, u64)> = Vec::new();
    let mut i: usize = 0;
    while i < first.len()
        invariant
            i <= first@.len(),
            both@ == first@.take(i as int),
        decreases first@.len() - i,
    {
        both.push(first[i]);
        assert(both@ =~= first@.take(i + 1));
        i += 1;
    }
    assert(first@.take(first@.len() as int) =~= first@);
    let mut j: usize = 0;
    while j < second.len()
        invariant
            j <= second@.len(),
            both@ == first@ + second@.take(j as int),
        decreases second@.len() - j,
    {
        both.push(second[j]);
        assert(both@ =~= first@ + second@.take(j + 1));
        j += 1;
    }
    assert(second@.take(second@.len() as int) =~= second@);
    let found = arrange(both.as_slice());
    if found.len() > MAX_DEMANDS {
        assert(arranged(found@, first@ + second@));
        return Err(Error::SkvPrefetch);
    }
    Ok(found)
}

/// Whether preparation leaves the ordinary reads their allowance: each prepared range may be
/// read once now and once later.
pub fn leaves_allowance(reads: usize, demands: usize) -> (r: bool)
    requires
        demands <= MAX_DEMANDS,
    ensures
        r == (reads + 2 * demands <= MAX_READS),
{
    reads <= MAX_READS && reads + 2 * demands <= MAX_READS
}

} // verus!
