//! Bounded original-scalar window output. No normalization or numerical reduction.
use vstd::prelude::*;

use crate::cancel::{check_cancel, ended, Cancel};
use crate::error::Error;
use crate::layout::min_of;
use crate::source::{distinct, RawBandWindow, RawScalarType, RawWindow};

verus! {

pub const MAX_OUTPUT_BYTES: usize = 67108864;

pub const MAX_WORKING_BYTES: usize = 134217728;

pub const MAX_WINDOW_BANDS: usize = 64;

/// Covers descriptor strings, bounded source traces, and serialization copies.
pub const CONTROL_BYTES: usize = 16777216;

/// A window of original samples that a caller asks for.
#[derive(Debug)]
pub struct Request {
    pub source: String,
    pub window: [usize; 4],
    pub bands: Vec<usize>,
    pub working_bytes: usize,
}

/// How much memory a reader needs for original samples of a window.
pub trait RawBound {
    /// The bytes for this left, top, width and height of these bands, or why there is no bound.
    spec fn raw_bound(&self, window: Seq<usize>, bands: Seq<usize>) -> Result<usize, Error>;

    fn raw_read_buffer_bound_at(
        &self,
        x: usize,
        y: usize,
        width: usize,
        height: usize,
        bands: &[usize],
    ) -> (r: Result<usize, Error>)
        ensures
            r == self.raw_bound(seq![x, y, width, height], bands@),
            r != Err::<usize, Error>(Error::Cancelled),
    ;
}

/// Where one band stands in the output: its samples, and behind them its masks.
#[derive(Clone, Copy, Debug, PartialEq, Eq, Structural)]
pub struct Place {
    pub band: usize,
    pub scalar: RawScalarType,
    pub offset: usize,
    pub bytes: usize,
    pub mask: usize,
    pub cells: usize,
}

/// Bands that are read together: from the first to behind the last, and the bound of the read.
#[derive(Clone, Copy, Debug, PartialEq, Eq, Structural)]
pub struct ReadGroup {
    pub first: usize,
    pub end: usize,
    pub bound: usize,
}

/// What is read, and where it goes.
#[derive(Debug)]
pub struct ReadPlan {
    pub places: Vec<Place>,
    /// Bytes of the output that are used.
    pub needed: usize,
    pub groups: Vec<ReadGroup>,
    /// The largest bound of a group.
    pub read_bound: usize,
    /// What the output, the control structures and the largest read take together.
    pub total: usize,
}

/// The next multiple of eight.
pub open spec fn aligned_of(n: int) -> int {
    (n + 7) / 8 * 8
}

fn aligned(n: usize) -> (r: Result<usize, Error>)
    ensures
        r == (if n + 7 > usize::MAX {
            Err::<usize, Error>(Error::WindowBytes)
        } else {
            Ok(aligned_of(n as int) as usize)
        }),
        r matches Ok(m) ==> m == aligned_of(n as int) && n <= m <= n + 7,
{
    match n.checked_add(7) {
        Some(m) => Ok(m / 8 * 8),
        None => Err(Error::WindowBytes),
    }
}

/// The bytes that the first `k` bands take.
pub open spec fn needed_of(scalars: Seq<RawScalarType>, bands: Seq<usize>, cells: int, k: nat) -> int
    decreases k,
{
    if k == 0 {
        0
    } else {
        aligned_of(needed_of(scalars, bands, cells, (k - 1) as nat)) + cells
            * scalars[bands[k - 1] as int].width() + cells
    }
}

/// Band `k` stands where the bands before it leave off.
pub open spec fn placed(
    place: Place,
    scalars: Seq<RawScalarType>,
    bands: Seq<usize>,
    cells: int,
    k: int,
) -> bool {
    let scalar = scalars[bands[k] as int];
    &&& place.band == bands[k]
    &&& place.scalar == scalar
    &&& place.offset == aligned_of(needed_of(scalars, bands, cells, k as nat))
    &&& place.bytes == cells * scalar.width()
    &&& place.mask == place.offset + place.bytes
    &&& place.cells == cells
}

proof fn lemma_needed_grows(
    scalars: Seq<RawScalarType>,
    bands: Seq<usize>,
    cells: int,
    j: nat,
    k: nat,
)
    requires
        j <= k,
        cells >= 0,
    ensures
        0 <= needed_of(scalars, bands, cells, j) <= needed_of(scalars, bands, cells, k),
    decreases k,
{
    if k > 0 {
        let w = scalars[bands[k - 1] as int].width();
        assert(cells * w >= 0) by (nonlinear_arith)
            requires
                cells >= 0,
                w >= 1,
        ;
        if j < k {
            lemma_needed_grows(scalars, bands, cells, j, (k - 1) as nat);
        } else {
            lemma_needed_grows(scalars, bands, cells, (k - 1) as nat, (k - 1) as nat);
        }
    }
}

/// The bands of an output stand one behind another, each at a multiple of eight, and all
/// within the bytes that are used.
pub proof fn places_do_not_overlap(
    scalars: Seq<RawScalarType>,
    bands: Seq<usize>,
    cells: int,
    places: Seq<Place>,
    i: int,
    j: int,
)
    requires
        cells >= 0,
        forall|k: int|
            0 <= k < places.len() ==> placed(#[trigger] places[k], scalars, bands, cells, k),
        0 <= i < j < places.len(),
    ensures
        places[i].mask + places[i].cells <= places[j].offset,
        places[i].offset % 8 == 0,
        places[j].mask + places[j].cells <= needed_of(scalars, bands, cells, places.len()),
{
    assert(placed(places[i], scalars, bands, cells, i));
    assert(placed(places[j], scalars, bands, cells, j));
    lemma_needed_grows(scalars, bands, cells, (i + 1) as nat, j as nat);
    lemma_needed_grows(scalars, bands, cells, (j + 1) as nat, places.len());
}

/// The group that begins at `first` and ends at `end` or before: the longest that fits.
pub open spec fn group_from<S: RawBound>(
    source: &S,
    window: Seq<usize>,
    bands: Seq<usize>,
    available: int,
    first: int,
    end: int,
) -> Result<ReadGroup, Error>
    decreases end,
{
    if end <= first || first < 0 {
        Err(Error::WindowWorking)
    } else {
        match source.raw_bound(window, bands.subrange(first, end)) {
            Err(e) => Err(e),
            Ok(bound) => if bound <= available {
                Ok(ReadGroup { first: first as usize, end: end as usize, bound })
            } else {
                group_from(source, window, bands, available, first, end - 1)
            },
        }
    }
}

/// The groups of the bands from `first` on, behind those before it.
pub open spec fn groups_from<S: RawBound>(
    source: &S,
    window: Seq<usize>,
    bands: Seq<usize>,
    available: int,
    most: int,
    first: int,
    before: Seq<ReadGroup>,
) -> Result<Seq<ReadGroup>, Error>
    decreases bands.len() - first,
{
    if first >= bands.len() {
        Ok(before)
    } else {
        match group_from(
            source,
            window,
            bands,
            available,
            first,
            min_of(first + most, bands.len() as int),
        ) {
            Err(e) => Err(e),
            Ok(group) => if group.end <= first || group.end > bands.len() {
                Ok(before)
            } else {
                groups_from(
                    source,
                    window,
                    bands,
                    available,
                    most,
                    group.end as int,
                    before.push(group),
                )
            },
        }
    }
}

pub open spec fn largest(groups: Seq<ReadGroup>) -> usize
    decreases groups.len(),
{
    if groups.len() == 0 {
        0
    } else {
        let rest = largest(groups.drop_last());
        if groups.last().bound > rest {
            groups.last().bound
        } else {
            rest
        }
    }
}

/// Why a window is not read, if it is not, before a bound is asked for. A source without
/// original samples has no types.
pub open spec fn plan_refusal(
    request: Request,
    capacity: int,
    width: int,
    height: int,
    scalars: Option<Seq<RawScalarType>>,
    max_read_bands: int,
) -> Option<Error> {
    let w = request.window@;
    let bands = request.bands@;
    let cells = w[2] * w[3];
    if !(capacity <= MAX_OUTPUT_BYTES && CONTROL_BYTES <= request.working_bytes
        <= MAX_WORKING_BYTES) {
        Some(Error::WindowResources)
    } else if !(w[2] > 0 && w[3] > 0 && w[0] + w[2] <= width && w[1] + w[3] <= height) {
        Some(Error::WindowOutside)
    } else if scalars is None {
        Some(Error::NoScalars)
    } else if !(0 < bands.len() <= MAX_WINDOW_BANDS && (forall|i: int|
        0 <= i < bands.len() ==> (#[trigger] bands[i]) < scalars->0.len()) && bands.no_duplicates()) {
        Some(Error::WindowBands)
    } else if cells > usize::MAX {
        Some(Error::WindowSize)
    } else if needed_of(scalars->0, bands, cells, bands.len()) > usize::MAX {
        Some(Error::WindowBytes)
    } else if needed_of(scalars->0, bands, cells, bands.len()) > capacity {
        Some(Error::WindowCapacity)
    } else if request.working_bytes < capacity + CONTROL_BYTES {
        Some(Error::WindowWorking)
    } else if max_read_bands == 0 {
        Some(Error::NoBandGroup)
    } else {
        None
    }
}

/// The groups of a request whose other parts are in order.
pub open spec fn groups_of<S: RawBound>(
    source: &S,
    request: Request,
    capacity: int,
    max_read_bands: int,
) -> Result<Seq<ReadGroup>, Error> {
    groups_from(
        source,
        request.window@,
        request.bands@,
        request.working_bytes - capacity - CONTROL_BYTES,
        min_of(max_read_bands, MAX_WINDOW_BANDS as int),
        0,
        Seq::empty(),
    )
}

fn find_group<S: RawBound>(
    source: &S,
    window: [usize; 4],
    bands: &[usize],
    available: usize,
    first: usize,
    end: usize,
) -> (r: Result<ReadGroup, Error>)
    requires
        first < end <= bands@.len(),
    ensures
        r == group_from(
            source,
            window@,
            bands@,
            available as int,
            first as int,
            end as int,
        ),
        r matches Ok(group) ==> group.first == first && first < group.end <= end && group.bound
            <= available,
        r != Err::<ReadGroup, Error>(Error::Cancelled),
{
    let mut last: usize = end;
    assert(window@ =~= seq![window@[0], window@[1], window@[2], window@[3]]);
    while last > first
        invariant
            first <= last <= end <= bands@.len(),
            window@ == seq![window@[0], window@[1], window@[2], window@[3]],
            group_from(
                source,
                window@,
                bands@,
                available as int,
                first as int,
                end as int,
            ) == group_from(
                source,
                window@,
                bands@,
                available as int,
                first as int,
                last as int,
            ),
        decreases last,
    {
        let bound: usize = source.raw_read_buffer_bound_at(
            window[0],
            window[1],
            window[2],
            window[3],
            vstd::slice::slice_subrange(bands, first, last),
        )?;
        if bound <= available {
            return Ok(ReadGroup { first, end: last, bound });
        }
        last -= 1;
    }
    Err(Error::WindowWorking)
}

fn find_groups<S: RawBound, C: Cancel>(
    source: &S,
    window: [usize; 4],
    bands: &[usize],
    available: usize,
    most: usize,
    cancel: &C,
) -> (r: Result<(Vec<ReadGroup>, usize), Error>)
    requires
        0 < most <= MAX_WINDOW_BANDS,
        0 < bands@.len() <= MAX_WINDOW_BANDS,
    ensures
        ended(
            cancel,
            r,
            match groups_from(
                source,
                window@,
                bands@,
                available as int,
                most as int,
                0,
                Seq::empty(),
            ) {
                Err(e) => r is Err && r->Err_0 == e,
                Ok(groups) => r matches Ok(found) && found.0@ == groups && found.1 == largest(groups)
                    && found.1 <= available,
            },
        ),
{
    let mut groups: Vec<ReadGroup> = Vec::new();
    let mut read_bound: usize = 0;
    let mut first: usize = 0;
    while first < bands.len()
        invariant
            first <= bands@.len() <= MAX_WINDOW_BANDS,
            cancel.always() ==> first == 0,
            0 < bands@.len(),
            0 < most <= MAX_WINDOW_BANDS,
            read_bound == largest(groups@),
            read_bound <= available,
            groups_from(
                source,
                window@,
                bands@,
                available as int,
                most as int,
                0,
                Seq::empty(),
            ) == groups_from(
                source,
                window@,
                bands@,
                available as int,
                most as int,
                first as int,
                groups@,
            ),
        decreases bands@.len() - first,
    {
        check_cancel(cancel)?;
        let end: usize = if first + most < bands.len() {
            first + most
        } else {
            bands.len()
        };
        let group: ReadGroup = find_group(source, window, bands, available, first, end)?;
        let ghost before = groups@;
        groups.push(group);
        assert(groups@.drop_last() =~= before);
        if group.bound > read_bound {
            read_bound = group.bound;
        }
        first = group.end;
    }
    Ok((groups, read_bound))
}

fn place_bands(scalars: &[RawScalarType], bands: &[usize], cells: usize) -> (r: Result<
    (Vec<Place>, usize),
    Error,
>)
    requires
        cells > 0,
        forall|i: int| 0 <= i < bands@.len() ==> (#[trigger] bands@[i]) < scalars@.len(),
    ensures
        if needed_of(scalars@, bands@, cells as int, bands@.len()) > usize::MAX {
            r is Err && r->Err_0 == Error::WindowBytes
        } else {
            &&& r matches Ok(found)
            &&& found.1 == needed_of(scalars@, bands@, cells as int, bands@.len())
            &&& found.0@.len() == bands@.len()
            &&& forall|k: int|
                0 <= k < bands@.len() ==> placed(
                    #[trigger] found.0@[k],
                    scalars@,
                    bands@,
                    cells as int,
                    k,
                )
        },
{
    let mut places: Vec<Place> = Vec::new();
    let mut needed: usize = 0;
    let mut k: usize = 0;
    let ghost c = cells as int;
    while k < bands.len()
        invariant
            k <= bands@.len(),
            c == cells,
            cells > 0,
            forall|i: int| 0 <= i < bands@.len() ==> (#[trigger] bands@[i]) < scalars@.len(),
            needed == needed_of(scalars@, bands@, c, k as nat),
            places@.len() == k,
            forall|i: int|
                0 <= i < k ==> placed(#[trigger] places@[i], scalars@, bands@, c, i),
        decreases bands@.len() - k,
    {
        let band: usize = bands[k];
        let scalar: RawScalarType = scalars[band];
        let width: usize = scalar.byte_width();
        let ghost next = needed_of(scalars@, bands@, c, (k + 1) as nat);
        proof {
            lemma_needed_grows(scalars@, bands@, c, (k + 1) as nat, bands@.len());
            let w = width as int;
            assert(c * w >= 0) by (nonlinear_arith)
                requires
                    c >= 0,
                    w >= 1,
            ;
            assert(next == aligned_of(needed as int) + c * w + c);
            assert(usize::MAX == 0xffff_ffff || usize::MAX == 0xffff_ffff_ffff_ffff);
        }
        let offset: usize = match aligned(needed) {
            Ok(offset) => offset,
            Err(e) => return Err(e),
        };
        let bytes: usize = match cells.checked_mul(width) {
            Some(bytes) => bytes,
            None => return Err(Error::WindowBytes),
        };
        let mask: usize = match offset.checked_add(bytes) {
            Some(mask) => mask,
            None => return Err(Error::WindowBytes),
        };
        needed = match mask.checked_add(cells) {
            Some(needed) => needed,
            None => return Err(Error::WindowBytes),
        };
        places.push(Place { band, scalar, offset, bytes, mask, cells });
        k += 1;
    }
    Ok((places, needed))
}

fn selects(bands: &[usize], n: usize) -> (r: bool)
    ensures
        r == (0 < bands@.len() <= MAX_WINDOW_BANDS && (forall|i: int|
            0 <= i < bands@.len() ==> (#[trigger] bands@[i]) < n) && bands@.no_duplicates()),
{
    if bands.len() == 0 || bands.len() > MAX_WINDOW_BANDS {
        return false;
    }
    let mut i: usize = 0;
    while i < bands.len()
        invariant
            i <= bands@.len(),
            forall|k: int| 0 <= k < i ==> (#[trigger] bands@[k]) < n,
        decreases bands@.len() - i,
    {
        if bands[i] >= n {
            assert(bands@[i as int] >= n);
            return false;
        }
        i += 1;
    }
    distinct(bands)
}

/// Plan a window before any byte is read. The caller owns an output of `capacity` bytes, which
/// is charged to the working bytes together with the scratch of the reader. The sides are
/// those of the source, and `scalars` the types of its bands.
/// Every group is admitted before verification or payload I/O; bounds
/// cover the reader's positional physical footprint, not just sample bytes.
pub fn plan<S: RawBound, C: Cancel>(
    source: &S,
    request: &Request,
    capacity: usize,
    width: usize,
    height: usize,
    scalars: Option<&[RawScalarType]>,
    max_read_bands: usize,
    cancel: &C,
) -> (r: Result<ReadPlan, Error>)
    ensures
        ended(
            cancel,
            r,
            match plan_refusal(
                *request,
                capacity as int,
                width as int,
                height as int,
                match scalars {
                    Some(scalars) => Some(scalars@),
                    None => None,
                },
                max_read_bands as int,
            ) {
                Some(e) => r is Err && r->Err_0 == e,
                None => match groups_of(source, *request, capacity as int, max_read_bands as int) {
                    Err(e) => r is Err && r->Err_0 == e,
                    Ok(groups) => {
                        let bands = request.bands@;
                        let cells = request.window@[2] * request.window@[3];
                        &&& r matches Ok(plan)
                        &&& plan.places@.len() == bands.len()
                        &&& forall|k: int|
                            0 <= k < bands.len() ==> placed(
                                #[trigger] plan.places@[k],
                                scalars->0@,
                                bands,
                                cells,
                                k,
                            )
                        &&& plan.needed == needed_of(scalars->0@, bands, cells, bands.len())
                        &&& plan.groups@ == groups
                        &&& plan.read_bound == largest(groups)
                        &&& plan.total == capacity + CONTROL_BYTES + plan.read_bound
                        &&& plan.total <= request.working_bytes
                    },
                },
            },
        ),
{
    check_cancel(cancel)?;
    if !(capacity <= MAX_OUTPUT_BYTES && request.working_bytes <= MAX_WORKING_BYTES
        && request.working_bytes >= CONTROL_BYTES) {
        return Err(Error::WindowResources);
    }
    let x: usize = request.window[0];
    let y: usize = request.window[1];
    let w: usize = request.window[2];
    let h: usize = request.window[3];
    let inside = w > 0 && h > 0 && match x.checked_add(w) {
        Some(end) => end <= width,
        None => false,
    } && match y.checked_add(h) {
        Some(end) => end <= height,
        None => false,
    };
    if !inside {
        return Err(Error::WindowOutside);
    }
    let scalars: &[RawScalarType] = match scalars {
        Some(scalars) => scalars,
        None => return Err(Error::NoScalars),
    };
    let bands = request.bands.as_slice();
    if !selects(bands, scalars.len()) {
        return Err(Error::WindowBands);
    }
    let cells: usize = match w.checked_mul(h) {
        Some(cells) => cells,
        None => return Err(Error::WindowSize),
    };
    proof {
        assert(w * h >= 1) by (nonlinear_arith)
            requires
                w >= 1,
                h >= 1,
        ;
    }
    let (places, needed) = place_bands(scalars, bands, cells)?;
    if needed > capacity {
        return Err(Error::WindowCapacity);
    }
    if request.working_bytes < capacity + CONTROL_BYTES {
        return Err(Error::WindowWorking);
    }
    let available: usize = request.working_bytes - capacity - CONTROL_BYTES;
    if max_read_bands == 0 {
        return Err(Error::NoBandGroup);
    }
    let most: usize = if max_read_bands < MAX_WINDOW_BANDS {
        max_read_bands
    } else {
        MAX_WINDOW_BANDS
    };
    let (groups, read_bound) = find_groups(
        source,
        request.window,
        bands,
        available,
        most,
        cancel,
    )?;
    Ok(
        ReadPlan {
            places,
            needed,
            groups,
            read_bound,
            total: capacity + CONTROL_BYTES + read_bound,
        },
    )
}

/// The groups of a plan take every band once, in the order of the request, and each fits.
pub proof fn groups_take_every_band<S: RawBound>(
    source: &S,
    window: Seq<usize>,
    bands: Seq<usize>,
    available: int,
    most: int,
    groups: Seq<ReadGroup>,
)
    requires
        most > 0,
        bands.len() <= MAX_WINDOW_BANDS,
        groups_from(source, window, bands, available, most, 0, Seq::empty()) == Ok::<
            Seq<ReadGroup>,
            Error,
        >(groups),
    ensures
        bands.len() > 0 ==> groups.len() > 0 && groups[0].first == 0 && groups.last().end
            == bands.len(),
        forall|i: int|
            0 <= i < groups.len() ==> {
                let group = #[trigger] groups[i];
                &&& group.first < group.end <= bands.len()
                &&& group.end - group.first <= most
                &&& group.bound <= available
                &&& i > 0 ==> group.first == groups[i - 1].end
            },
{
    lemma_groups(source, window, bands, available, most, 0, Seq::empty());
}

spec fn joined(groups: Seq<ReadGroup>, n: int, available: int, most: int) -> bool {
    &&& n == 0 ==> groups.len() == 0
    &&& n > 0 ==> groups.len() > 0 && groups[0].first == 0 && groups.last().end == n
    &&& forall|i: int|
        0 <= i < groups.len() ==> {
            let group = #[trigger] groups[i];
            &&& group.first < group.end <= n
            &&& group.end - group.first <= most
            &&& group.bound <= available
            &&& i > 0 ==> group.first == groups[i - 1].end
        }
}

proof fn lemma_group<S: RawBound>(
    source: &S,
    window: Seq<usize>,
    bands: Seq<usize>,
    available: int,
    first: int,
    end: int,
)
    requires
        0 <= first < end <= bands.len() <= MAX_WINDOW_BANDS,
        group_from(source, window, bands, available, first, end) is Ok,
    ensures
        ({
            let group = group_from(source, window, bands, available, first, end)->Ok_0;
            group.first == first && first < group.end <= end && group.bound <= available
        }),
    decreases end,
{
    reveal_with_fuel(group_from, 2);
    if end > first + 1 {
        match source.raw_bound(window, bands.subrange(first, end)) {
            Ok(bound) => {
                if bound > available {
                    lemma_group(source, window, bands, available, first, end - 1);
                }
            },
            Err(_) => {},
        }
    }
}

proof fn lemma_groups<S: RawBound>(
    source: &S,
    window: Seq<usize>,
    bands: Seq<usize>,
    available: int,
    most: int,
    first: int,
    before: Seq<ReadGroup>,
)
    requires
        most > 0,
        0 <= first <= bands.len() <= MAX_WINDOW_BANDS,
        joined(before, first, available, most),
        groups_from(source, window, bands, available, most, first, before) is Ok,
    ensures
        joined(
            groups_from(source, window, bands, available, most, first, before)->Ok_0,
            bands.len() as int,
            available,
            most,
        ),
    decreases bands.len() - first,
{
    if first < bands.len() {
        let end = min_of(first + most, bands.len() as int);
        lemma_group(source, window, bands, available, first, end);
        let group = group_from(source, window, bands, available, first, end)->Ok_0;
        let next = before.push(group);
        assert(joined(next, group.end as int, available, most)) by {
            assert forall|i: int| 0 <= i < next.len() implies {
                let g = #[trigger] next[i];
                &&& g.first < g.end <= group.end
                &&& g.end - g.first <= most
                &&& g.bound <= available
                &&& i > 0 ==> g.first == next[i - 1].end
            } by {
                if i < before.len() {
                    assert(next[i] == before[i]);
                }
            }
        }
        lemma_groups(source, window, bands, available, most, group.end as int, next);
    }
}

/// Places that stand one behind another within `len` bytes.
pub open spec fn laid_out(places: Seq<Place>, len: int) -> bool {
    &&& forall|i: int|
        0 <= i < places.len() ==> (#[trigger] places[i]).mask == places[i].offset + places[i].bytes
            && places[i].mask + places[i].cells <= len
    &&& forall|i: int, j: int|
        0 <= i < j < places.len() ==> (#[trigger] places[i]).mask + places[i].cells <= (
        #[trigger] places[j]).offset
}

/// A plan whose bytes are there is laid out.
pub proof fn a_plan_is_laid_out(
    scalars: Seq<RawScalarType>,
    bands: Seq<usize>,
    cells: int,
    places: Seq<Place>,
    len: int,
)
    requires
        cells >= 0,
        forall|k: int|
            0 <= k < places.len() ==> placed(#[trigger] places[k], scalars, bands, cells, k),
        needed_of(scalars, bands, cells, places.len()) <= len,
    ensures
        laid_out(places, len),
{
    assert forall|i: int| 0 <= i < places.len() implies (#[trigger] places[i]).mask
        == places[i].offset + places[i].bytes && places[i].mask + places[i].cells <= len by {
        assert(placed(places[i], scalars, bands, cells, i));
        lemma_needed_grows(scalars, bands, cells, (i + 1) as nat, places.len());
    }
    assert forall|i: int, j: int| 0 <= i < j < places.len() implies (#[trigger] places[i]).mask
        + places[i].cells <= (#[trigger] places[j]).offset by {
        places_do_not_overlap(scalars, bands, cells, places, i, j);
    }
}

/// A byte of the output belongs to a place.
pub open spec fn inside_place(place: Place, k: int) -> bool {
    place.offset <= k < place.mask + place.cells
}

/// A byte of the output belongs to one of the places from `first` to `end`.
pub open spec fn inside_group(places: Seq<Place>, first: int, end: int, k: int) -> bool {
    exists|i: int| first <= i < end && inside_place(#[trigger] places[i], k)
}

/// The samples and masks of a band stand in the output.
pub open spec fn stored(output: Seq<u8>, place: Place, data: RawBandWindow) -> bool {
    &&& output.subrange(place.offset as int, place.offset + place.bytes) == data.samples_le@
    &&& output.subrange(place.mask as int, place.mask + place.cells) == data.mask@
}

/// A band has the bytes that its place takes.
pub open spec fn fits(place: Place, data: RawBandWindow) -> bool {
    data.samples_le@.len() == place.bytes && data.mask@.len() == place.cells
}

/// Copy in bounded steps, so that a stop request is heeded even on the widest read.
fn copy_bytes<C: Cancel>(output: &mut [u8], at: usize, source: &[u8], cancel: &C) -> (r: Result<
    (),
    Error,
>)
    requires
        at + source@.len() <= old(output)@.len(),
    ensures
        final(output)@.len() == old(output)@.len(),
        r is Ok || r == Err::<(), Error>(Error::Cancelled) && !cancel.never(),
        cancel.always() && source@.len() > 0 ==> r is Err,
        r is Ok ==> final(output)@.subrange(at as int, at + source@.len()) == source@,
        forall|k: int|
            0 <= k < old(output)@.len() && !(at <= k < at + source@.len()) ==> #[trigger] final(output)@[k] == old(output)@[k],
{
    let n: usize = source.len();
    let len: usize = output.len();
    let ghost before = output@;
    let mut i: usize = 0;
    while i < n
        invariant
            i <= n,
            n == source@.len(),
            len == output@.len(),
            before == old(output)@,
            output@.len() == before.len(),
            at + n <= len,
            i > 0 ==> !cancel.always(),
            forall|k: int| 0 <= k < i ==> output@[at + k] == source@[k],
            forall|k: int|
                0 <= k < before.len() && !(at <= k < at + i) ==> #[trigger] output@[k]
                    == before[k],
        decreases n - i,
    {
        if i % 65536 == 0 {
            check_cancel(cancel)?;
        }
        output[at + i] = source[i];
        i += 1;
    }
    assert(output@.subrange(at as int, at + n) =~= source@);
    Ok(())
}

/// Why a window that was read does not fit its group, if it does not.
pub open spec fn group_refusal(
    places: Seq<Place>,
    group: ReadGroup,
    width: int,
    height: int,
    window: RawWindow,
) -> Option<Error> {
    if !(window.width == width && window.height == height && window.bands@.len() == group.end
        - group.first) {
        Some(Error::RawShape)
    } else if exists|i: int|
        0 <= i < window.bands@.len() && !fits(
            places[group.first + i],
            #[trigger] window.bands@[i],
        ) {
        Some(Error::RawPayload)
    } else {
        None
    }
}

/// A window holds at least one byte.
pub open spec fn carries(bands: Seq<RawBandWindow>) -> bool {
    exists|i: int|
        0 <= i < bands.len() && ((#[trigger] bands[i]).samples_le@.len() > 0
            || bands[i].mask@.len() > 0)
}

/// Copy a group that was read to its places. Values and independent masks keep their original
/// bytes, including invalid payloads. Partial bytes are never a successful result.
pub fn store_group<C: Cancel>(
    output: &mut [u8],
    places: &Vec<Place>,
    group: ReadGroup,
    width: usize,
    height: usize,
    window: &RawWindow,
    cancel: &C,
) -> (r: Result<(), Error>)
    requires
        laid_out(places@, old(output)@.len() as int),
        group.first <= group.end <= places@.len(),
    ensures
        final(output)@.len() == old(output)@.len(),
        r == Err::<(), Error>(Error::Cancelled) ==> !cancel.never(),
        r != Err::<(), Error>(Error::Cancelled) ==> r == (match group_refusal(
            places@,
            group,
            width as int,
            height as int,
            *window,
        ) {
            Some(e) => Err::<(), Error>(e),
            None => Ok(()),
        }),
        cancel.always() && carries(window.bands@) ==> r is Err,
        r is Ok ==> forall|i: int|
            0 <= i < window.bands@.len() ==> stored(
                final(output)@,
                places@[group.first + i],
                #[trigger] window.bands@[i],
            ),
        forall|k: int|
            0 <= k < old(output)@.len() && !inside_group(
                places@,
                group.first as int,
                group.end as int,
                k,
            ) ==> #[trigger] final(output)@[k] == old(output)@[k],
{
    let ghost before = output@;
    let n: usize = window.bands.len();
    if !(window.width == width && window.height == height && n == group.end - group.first) {
        return Err(Error::RawShape);
    }
    let mut i: usize = 0;
    while i < n
        invariant
            i <= n,
            n == window.bands@.len(),
            n == group.end - group.first,
            group.first <= group.end <= places@.len(),
            before == old(output)@,
            output@.len() == before.len(),
            laid_out(places@, before.len() as int),
            window.width == width,
            window.height == height,
            forall|k: int|
                0 <= k < i ==> fits(places@[group.first + k], #[trigger] window.bands@[k]),
            cancel.always() ==> forall|k: int|
                0 <= k < i ==> (#[trigger] window.bands@[k]).samples_le@.len() == 0
                    && window.bands@[k].mask@.len() == 0,
            forall|k: int|
                0 <= k < i ==> stored(
                    output@,
                    places@[group.first + k],
                    #[trigger] window.bands@[k],
                ),
            forall|k: int|
                0 <= k < before.len() && !inside_group(
                    places@,
                    group.first as int,
                    group.end as int,
                    k,
                ) ==> #[trigger] output@[k] == before[k],
        decreases n - i,
    {
        let place: Place = places[group.first + i];
        let data = &window.bands[i];
        assert(place == places@[group.first + i]);
        if !(data.samples_le.len() == place.bytes && data.mask.len() == place.cells) {
            assert(!fits(places@[group.first + i], window.bands@[i as int]));
            return Err(Error::RawPayload);
        }
        let ghost start = output@;
        match copy_bytes(output, place.offset, data.samples_le.as_slice(), cancel) {
            Ok(()) => {},
            Err(e) => {
                proof {
                    lemma_untouched(places@, group, group.first + i, before, start, output@);
                }
                return Err(e);
            },
        }
        let ghost middle = output@;
        match copy_bytes(output, place.mask, data.mask.as_slice(), cancel) {
            Ok(()) => {},
            Err(e) => {
                proof {
                    lemma_untouched(places@, group, group.first + i, before, start, output@);
                }
                return Err(e);
            },
        }
        proof {
            lemma_untouched(places@, group, group.first + i, before, start, output@);
            assert(output@.subrange(place.offset as int, place.offset + place.bytes)
                =~= middle.subrange(place.offset as int, place.offset + place.bytes));
            assert(stored(output@, place, *data));
            assert forall|k: int| 0 <= k < i implies stored(
                output@,
                places@[group.first + k],
                #[trigger] window.bands@[k],
            ) by {
                let other = places@[group.first + k];
                assert(stored(start, other, window.bands@[k]));
                assert(other.mask + other.cells <= place.offset);
                assert(output@.subrange(other.offset as int, other.offset + other.bytes)
                    =~= start.subrange(other.offset as int, other.offset + other.bytes));
                assert(output@.subrange(other.mask as int, other.mask + other.cells)
                    =~= start.subrange(other.mask as int, other.mask + other.cells));
            }
        }
        i += 1;
    }
    Ok(())
}

proof fn lemma_untouched(
    places: Seq<Place>,
    group: ReadGroup,
    at: int,
    before: Seq<u8>,
    start: Seq<u8>,
    now: Seq<u8>,
)
    requires
        group.first <= at < group.end <= places.len(),
        before.len() == start.len() == now.len(),
        forall|k: int|
            0 <= k < before.len() && !inside_group(
                places,
                group.first as int,
                group.end as int,
                k,
            ) ==> #[trigger] start[k] == before[k],
        forall|k: int|
            0 <= k < before.len() && !inside_place(places[at], k) ==> #[trigger] now[k] == start[k],
    ensures
        forall|k: int|
            0 <= k < before.len() && !inside_group(
                places,
                group.first as int,
                group.end as int,
                k,
            ) ==> #[trigger] now[k] == before[k],
{
    assert forall|k: int|
        0 <= k < before.len() && !inside_group(
            places,
            group.first as int,
            group.end as int,
            k,
        ) implies #[trigger] now[k] == before[k] by {
        assert(!inside_place(places[at], k));
        assert(start[k] == before[k]);
    }
}

/// Groups of all of `n` bands, one behind another.
pub open spec fn in_turn(groups: Seq<ReadGroup>, n: int) -> bool {
    &&& n == 0 || groups.len() > 0
    &&& groups.len() > 0 ==> groups[0].first == 0 && groups.last().end == n
    &&& forall|i: int|
        0 <= i < groups.len() ==> (#[trigger] groups[i]).first < groups[i].end <= n && (i > 0
            ==> groups[i].first == groups[i - 1].end)
}

/// A read of a window under way, group by group.
pub struct WindowRead {
    pub plan: ReadPlan,
    pub width: usize,
    pub height: usize,
    /// The group that is read next.
    pub at: usize,
    /// The bands that were read.
    pub data: Ghost<Seq<RawBandWindow>>,
}

impl WindowRead {
    /// How many bands the groups before the next one have.
    pub open spec fn done(&self) -> int {
        if self.at == 0 {
            0
        } else {
            self.plan.groups@[self.at - 1].end as int
        }
    }

    /// Every band that was read stands in its place of the output.
    pub open spec fn wf(&self, output: Seq<u8>) -> bool {
        &&& in_turn(self.plan.groups@, self.plan.places@.len() as int)
        &&& laid_out(self.plan.places@, output.len() as int)
        &&& self.at <= self.plan.groups@.len()
        &&& self.data@.len() == self.done()
        &&& forall|i: int|
            0 <= i < self.data@.len() ==> stored(
                output,
                self.plan.places@[i],
                #[trigger] self.data@[i],
            )
    }

    /// Begin with the first group.
    pub fn new(plan: ReadPlan, width: usize, height: usize, output: &[u8]) -> (r: WindowRead)
        requires
            in_turn(plan.groups@, plan.places@.len() as int),
            laid_out(plan.places@, output@.len() as int),
        ensures
            r.wf(output@),
            r.plan == plan,
            r.width == width,
            r.height == height,
            r.at == 0,
            r.data@.len() == 0,
    {
        WindowRead { plan, width, height, at: 0, data: Ghost(Seq::empty()) }
    }

    /// The group that is read next. Where none is left, the read is complete.
    pub fn next<C: Cancel>(&self, cancel: &C) -> (r: Result<Option<ReadGroup>, Error>)
        ensures
            ended(
                cancel,
                r,
                r == Ok::<Option<ReadGroup>, Error>(
                    if self.at < self.plan.groups@.len() {
                        Some(self.plan.groups@[self.at as int])
                    } else {
                        None
                    },
                ),
            ),
    {
        check_cancel(cancel)?;
        if self.at < self.plan.groups.len() {
            Ok(Some(self.plan.groups[self.at]))
        } else {
            Ok(None)
        }
    }

    /// Take what was read for the next group, and go on behind it. What was taken before stays.
    #[verifier::rlimit(40)]
    #[verifier::spinoff_prover]
    pub fn take<C: Cancel>(&mut self, output: &mut [u8], window: &RawWindow, cancel: &C) -> (r: Result<
        (),
        Error,
    >)
        requires
            old(self).wf(old(output)@),
            old(self).at < old(self).plan.groups@.len(),
        ensures
            final(output)@.len() == old(output)@.len(),
            r == Err::<(), Error>(Error::Cancelled) ==> !cancel.never(),
            r != Err::<(), Error>(Error::Cancelled) ==> r == (match group_refusal(
                old(self).plan.places@,
                old(self).plan.groups@[old(self).at as int],
                old(self).width as int,
                old(self).height as int,
                *window,
            ) {
                Some(e) => Err::<(), Error>(e),
                None => Ok(()),
            }),
            cancel.always() && carries(window.bands@) ==> r is Err,
            forall|k: int|
                0 <= k < old(output)@.len() && !inside_group(
                    old(self).plan.places@,
                    old(self).plan.groups@[old(self).at as int].first as int,
                    old(self).plan.groups@[old(self).at as int].end as int,
                    k,
                ) ==> #[trigger] final(output)@[k] == old(output)@[k],
            r is Err ==> *final(self) == *old(self),
            r is Ok ==> {
                &&& final(self).wf(final(output)@)
                &&& final(self).plan == old(self).plan
                &&& final(self).width == old(self).width
                &&& final(self).height == old(self).height
                &&& final(self).at == old(self).at + 1
                &&& final(self).data@ == old(self).data@ + window.bands@
            },
    {
        let count: usize = self.plan.groups.len();
        assert(self.at < count);
        let group: ReadGroup = self.plan.groups[self.at];
        let ghost places = self.plan.places@;
        let ghost before = output@;
        store_group(output, &self.plan.places, group, self.width, self.height, window, cancel)?;
        self.at = self.at + 1;
        self.data = Ghost(self.data@ + window.bands@);
        proof {
            let kept = old(self).data@;
            assert(group.first == kept.len());
            let all = self.data@;
            assert forall|i: int| 0 <= i < all.len() implies stored(
                output@,
                places[i],
                #[trigger] all[i],
            ) by {
                if i < kept.len() {
                    assert(all[i] == kept[i]);
                    assert(stored(before, places[i], kept[i]));
                    lemma_kept_place(places, group, before, output@, i, kept[i]);
                } else {
                    let m = i - kept.len();
                    assert(all[i] == window.bands@[m]);
                    assert(places[group.first + m] == places[i]);
                }
            }
        }
        Ok(())
    }
}

/// A band that stands before a group stays as it is.
proof fn lemma_kept_place(
    places: Seq<Place>,
    group: ReadGroup,
    before: Seq<u8>,
    now: Seq<u8>,
    i: int,
    data: RawBandWindow,
)
    requires
        laid_out(places, before.len() as int),
        before.len() == now.len(),
        0 <= i < group.first,
        group.first <= group.end <= places.len(),
        stored(before, places[i], data),
        forall|k: int|
            0 <= k < before.len() && !inside_group(
                places,
                group.first as int,
                group.end as int,
                k,
            ) ==> #[trigger] now[k] == before[k],
    ensures
        stored(now, places[i], data),
{
    let place = places[i];
    assert forall|k: int| place.offset <= k < place.mask + place.cells implies #[trigger] now[k]
        == before[k] by {
        assert(!inside_group(places, group.first as int, group.end as int, k)) by {
            assert forall|j: int| group.first <= j < group.end implies !inside_place(
                #[trigger] places[j],
                k,
            ) by {
                assert(places[i].mask + places[i].cells <= places[j].offset);
            }
        }
    }
    assert(now.subrange(place.offset as int, place.offset + place.bytes) =~= before.subrange(
        place.offset as int,
        place.offset + place.bytes,
    ));
    assert(now.subrange(place.mask as int, place.mask + place.cells) =~= before.subrange(
        place.mask as int,
        place.mask + place.cells,
    ));
}

/// A complete read holds every band of the request in its place.
pub proof fn a_complete_read_holds_every_band(read: WindowRead, output: Seq<u8>)
    requires
        read.wf(output),
        read.at == read.plan.groups@.len(),
    ensures
        read.data@.len() == read.plan.places@.len(),
        forall|i: int|
            0 <= i < read.plan.places@.len() ==> stored(
                output,
                #[trigger] read.plan.places@[i],
                read.data@[i],
            ),
{
    assert forall|i: int| 0 <= i < read.plan.places@.len() implies stored(
        output,
        #[trigger] read.plan.places@[i],
        read.data@[i],
    ) by {
        assert(stored(output, read.plan.places@[i], read.data@[i]));
    }
}

/// The groups of a plan are those of all bands, one behind another.
pub proof fn the_groups_of_a_plan_follow_in_turn<S: RawBound>(
    source: &S,
    request: Request,
    capacity: int,
    max_read_bands: int,
)
    requires
        max_read_bands > 0,
        0 < request.bands@.len() <= MAX_WINDOW_BANDS,
        groups_of(source, request, capacity, max_read_bands) is Ok,
    ensures
        in_turn(
            groups_of(source, request, capacity, max_read_bands)->Ok_0,
            request.bands@.len() as int,
        ),
{
    lemma_groups(
        source,
        request.window@,
        request.bands@,
        request.working_bytes - capacity - CONTROL_BYTES,
        min_of(max_read_bands, MAX_WINDOW_BANDS as int),
        0,
        Seq::empty(),
    );
}

} // verus!
