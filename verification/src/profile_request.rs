//! What a request asks for, counted before any source is opened, and which of two attested
//! sources serves it.
use vstd::prelude::*;

use crate::cancel::{check_cancel, ended, Cancel};
use crate::error::Error;
use crate::model::MAX_SIDE;
use crate::profile_text::{expected_view_sha256, text_digest, view_text, ExpectedView};
use crate::serving_profile::{
    bounded_label, is_listed, label, listed, profile_refusal, Candidate, Eligibility, ObjectAttestation, RequestFacts,
    ServingProfile, PROFILE_WORKING_BYTES, SOURCE_OPEN_BYTES, SOURCE_RETAINED_BYTES,
};
use crate::source::distinct;
use crate::text::same;

verus! {

/// One logical window of a polygon: its left, top, width and height, and the cells that are
/// selected in it, as indexes or as runs.
#[derive(Debug)]
pub struct OrderedWindow {
    pub window: [usize; 4],
    pub indexes: Option<Vec<u32>>,
    pub runs: Option<Vec<[u32; 2]>>,
    /// Items for which the selection holds memory.
    pub capacity: usize,
}

#[derive(Debug)]
pub struct OrderedPolygon {
    pub id: String,
    pub windows: Vec<OrderedWindow>,
    /// Bytes for which the name holds memory.
    pub id_capacity: usize,
    /// Windows for which the list holds memory.
    pub window_capacity: usize,
}

#[derive(Debug)]
pub struct OrderedRequest {
    pub polygons: Vec<OrderedPolygon>,
    pub bands: Vec<usize>,
    /// Whether the request overrides missing-value marks.
    pub overrides_nodata: bool,
    pub planning_bytes: usize,
    pub max_contributions: u64,
    pub polygon_capacity: usize,
    pub band_capacity: usize,
}

/// Bytes that each part of a request takes in memory.
#[derive(Clone, Copy, Debug, PartialEq, Eq, Structural)]
pub struct Sizes {
    pub request: usize,
    pub polygon: usize,
    pub band: usize,
    pub window: usize,
    pub index: usize,
    pub run: usize,
}

/// What was counted so far. The envelope is left, top, right and bottom.
#[derive(Clone, Copy, Debug)]
pub struct Tally {
    pub memory: usize,
    pub windows: usize,
    pub selected: u64,
    pub envelope: Option<(usize, usize, usize, usize)>,
}

/// What a request is held against.
#[derive(Clone, Copy, Debug, PartialEq, Eq, Structural)]
pub struct Limits {
    pub width: usize,
    pub height: usize,
    pub planning_bytes: usize,
    pub max_contributions: u64,
    pub sizes: Sizes,
}

/// `total` and `count` items of `size` bytes.
pub open spec fn charged(total: usize, count: usize, size: usize) -> Result<usize, Error> {
    if total + count * size > usize::MAX {
        Err(Error::RequestSize)
    } else {
        Ok((total + count * size) as usize)
    }
}

fn add_bytes(total: usize, count: usize, size: usize) -> (r: Result<usize, Error>)
    ensures
        r == charged(total, count, size),
{
    let bytes: usize = match count.checked_mul(size) {
        Some(bytes) => bytes,
        None => return Err(Error::RequestSize),
    };
    match total.checked_add(bytes) {
        Some(total) => Ok(total),
        None => Err(Error::RequestSize),
    }
}

/// Indexes ascend and stay below `cells`.
pub open spec fn indexes_ok(indexes: Seq<u32>, cells: int) -> bool {
    &&& forall|i: int| 0 <= i < indexes.len() ==> (#[trigger] indexes[i]) < cells
    &&& forall|i: int, j: int| 0 <= i < j < indexes.len() ==> indexes[i] < indexes[j]
}

/// What is selected with the first `k` runs, or why there is none.
pub open spec fn runs_through(
    selected: u64,
    runs: Seq<[u32; 2]>,
    cells: int,
    max: u64,
    k: nat,
) -> Result<u64, Error>
    decreases k,
{
    if k == 0 {
        Ok(selected)
    } else {
        let i = k - 1;
        let start = runs[i]@[0];
        let end = runs[i]@[1];
        match runs_through(selected, runs, cells, max, i as nat) {
            Err(e) => Err(e),
            Ok(before) => if !(start < end && end <= cells && (i == 0 || start >= runs[i
                - 1]@[1])) {
                Err(Error::RequestRuns)
            } else if before + (end - start) > u64::MAX {
                Err(Error::RequestSelection)
            } else if before + (end - start) > max {
                Err(Error::RequestSelected)
            } else {
                Ok((before + (end - start)) as u64)
            },
        }
    }
}

/// The smallest box around another one and a window.
pub open spec fn widened(
    envelope: Option<(usize, usize, usize, usize)>,
    window: Seq<usize>,
) -> (usize, usize, usize, usize) {
    let right = (window[0] + window[2]) as usize;
    let bottom = (window[1] + window[3]) as usize;
    match envelope {
        None => (window[0], window[1], right, bottom),
        Some(b) => (
            if window[0] < b.0 {
                window[0]
            } else {
                b.0
            },
            if window[1] < b.1 {
                window[1]
            } else {
                b.1
            },
            if right > b.2 {
                right
            } else {
                b.2
            },
            if bottom > b.3 {
                bottom
            } else {
                b.3
            },
        ),
    }
}

/// The memory with the selection of a window, within the planning budget.
pub open spec fn planned(t: Tally, window: OrderedWindow, size: usize, l: Limits) -> Result<
    usize,
    Error,
> {
    match charged(t.memory, window.capacity, size) {
        Err(e) => Err(e),
        Ok(memory) => if memory > l.planning_bytes {
            Err(Error::RequestPlanning)
        } else {
            Ok(memory)
        },
    }
}

/// What is selected with a window whose memory is planned.
pub open spec fn selected_with(t: Tally, window: OrderedWindow, l: Limits) -> Result<u64, Error> {
    let cells = window.window@[2] * window.window@[3];
    match (window.indexes, window.runs) {
        (Some(indexes), None) => if t.selected + indexes@.len() > u64::MAX {
            Err(Error::RequestSelection)
        } else if t.selected + indexes@.len() > l.max_contributions {
            Err(Error::RequestSelected)
        } else if !indexes_ok(indexes@, cells) {
            Err(Error::RequestIndexes)
        } else {
            Ok((t.selected + indexes@.len()) as u64)
        },
        (None, Some(runs)) => runs_through(
            t.selected,
            runs@,
            cells,
            l.max_contributions,
            runs@.len(),
        ),
        _ => Err(Error::RequestChoice),
    }
}

/// What is counted with one more window, or why it is refused.
pub open spec fn with_window(t: Tally, window: OrderedWindow, l: Limits) -> Result<Tally, Error> {
    let w = window.window@;
    if w[2] * w[3] > usize::MAX {
        Err(Error::RequestWindowOverflow)
    } else if !(w[2] > 0 && w[3] > 0 && w[2] * w[3] <= u32::MAX && w[0] + w[2] <= l.width && w[1]
        + w[3] <= l.height) {
        Err(Error::RequestWindow)
    } else if window.indexes is Some == window.runs is Some {
        Err(Error::RequestChoice)
    } else {
        match planned(
            t,
            window,
            if window.indexes is Some {
                l.sizes.index
            } else {
                l.sizes.run
            },
            l,
        ) {
            Err(e) => Err(e),
            Ok(memory) => match selected_with(t, window, l) {
                Err(e) => Err(e),
                Ok(selected) => Ok(
                    Tally {
                        memory,
                        windows: t.windows,
                        selected,
                        envelope: if selected > t.selected {
                            Some(widened(t.envelope, w))
                        } else {
                            t.envelope
                        },
                    },
                ),
            },
        }
    }
}

/// What is counted with the first `k` windows of a polygon.
pub open spec fn with_windows(t: Tally, windows: Seq<OrderedWindow>, l: Limits, k: nat) -> Result<
    Tally,
    Error,
>
    decreases k,
{
    if k == 0 {
        Ok(t)
    } else {
        match with_windows(t, windows, l, (k - 1) as nat) {
            Err(e) => Err(e),
            Ok(before) => with_window(before, windows[k - 1], l),
        }
    }
}

/// A polygon has a name of its own.
pub open spec fn named(polygons: Seq<OrderedPolygon>, p: int) -> bool {
    label(polygons[p].id@, 128) && forall|q: int|
        0 <= q < p ==> (#[trigger] polygons[q]).id@ != polygons[p].id@
}

/// What is counted with one more polygon, before its windows.
pub open spec fn entered(t: Tally, polygon: OrderedPolygon, l: Limits) -> Result<Tally, Error> {
    let n = polygon.windows@.len();
    if t.windows + n > usize::MAX {
        Err(Error::RequestWindows)
    } else if t.windows + n > 4096 {
        Err(Error::RequestWindowCount)
    } else {
        match charged(t.memory, polygon.id_capacity, 1) {
            Err(e) => Err(e),
            Ok(memory) => match charged(memory, polygon.window_capacity, l.sizes.window) {
                Err(e) => Err(e),
                Ok(memory) => Ok(Tally { memory, windows: (t.windows + n) as usize, ..t }),
            },
        }
    }
}

/// What is counted with the first `p` polygons.
pub open spec fn with_polygons(t: Tally, polygons: Seq<OrderedPolygon>, l: Limits, p: nat) -> Result<
    Tally,
    Error,
>
    decreases p,
{
    if p == 0 {
        Ok(t)
    } else {
        match with_polygons(t, polygons, l, (p - 1) as nat) {
            Err(e) => Err(e),
            Ok(before) => if !named(polygons, p - 1) {
                Err(Error::RequestPolygon)
            } else {
                match entered(before, polygons[p - 1], l) {
                    Err(e) => Err(e),
                    Ok(started) => with_windows(
                        started,
                        polygons[p - 1].windows@,
                        l,
                        polygons[p - 1].windows@.len(),
                    ),
                }
            },
        }
    }
}

proof fn lemma_runs_stop(selected: u64, runs: Seq<[u32; 2]>, cells: int, max: u64, k: nat, n: nat)
    requires
        k <= n,
        runs_through(selected, runs, cells, max, k) is Err,
    ensures
        runs_through(selected, runs, cells, max, n) == runs_through(selected, runs, cells, max, k),
    decreases n,
{
    if k < n {
        lemma_runs_stop(selected, runs, cells, max, k, (n - 1) as nat);
    }
}

proof fn lemma_windows_stop(t: Tally, windows: Seq<OrderedWindow>, l: Limits, k: nat, n: nat)
    requires
        k <= n,
        with_windows(t, windows, l, k) is Err,
    ensures
        with_windows(t, windows, l, n) == with_windows(t, windows, l, k),
    decreases n,
{
    if k < n {
        lemma_windows_stop(t, windows, l, k, (n - 1) as nat);
    }
}

proof fn lemma_polygons_stop(t: Tally, polygons: Seq<OrderedPolygon>, l: Limits, k: nat, n: nat)
    requires
        k <= n,
        with_polygons(t, polygons, l, k) is Err,
    ensures
        with_polygons(t, polygons, l, n) == with_polygons(t, polygons, l, k),
    decreases n,
{
    if k < n {
        lemma_polygons_stop(t, polygons, l, k, (n - 1) as nat);
    }
}

fn check_indexes<C: Cancel>(indexes: &[u32], cells: usize, cancel: &C) -> (r: Result<(), Error>)
    ensures
        r == Err::<(), Error>(Error::Cancelled) ==> !cancel.never(),
        r != Err::<(), Error>(Error::Cancelled) ==> r == (if indexes_ok(indexes@, cells as int) {
            Ok::<(), Error>(())
        } else {
            Err(Error::RequestIndexes)
        }),
{
    let mut i: usize = 0;
    while i < indexes.len()
        invariant
            i <= indexes@.len(),
            forall|k: int| 0 <= k < i ==> (#[trigger] indexes@[k]) < cells,
            forall|j: int, k: int| 0 <= j < k < i ==> indexes@[j] < indexes@[k],
        decreases indexes@.len() - i,
    {
        if i % 1024 == 0 {
            check_cancel(cancel)?;
        }
        let index: u32 = indexes[i];
        if index as usize >= cells || (i > 0 && indexes[i - 1] >= index) {
            proof {
                if i > 0 && indexes@[i - 1] >= index {
                    assert(!(indexes@[i - 1] < indexes@[i as int]));
                }
            }
            return Err(Error::RequestIndexes);
        }
        i += 1;
    }
    Ok(())
}

fn count_runs<C: Cancel>(
    selected: u64,
    runs: &[[u32; 2]],
    cells: usize,
    max: u64,
    cancel: &C,
) -> (r: Result<u64, Error>)
    ensures
        r == Err::<u64, Error>(Error::Cancelled) ==> !cancel.never(),
        r != Err::<u64, Error>(Error::Cancelled) ==> r == runs_through(
            selected,
            runs@,
            cells as int,
            max,
            runs@.len(),
        ),
{
    let mut total: u64 = selected;
    let mut previous: u32 = 0;
    let mut i: usize = 0;
    while i < runs.len()
        invariant
            i <= runs@.len(),
            runs_through(selected, runs@, cells as int, max, i as nat) == Ok::<u64, Error>(total),
            i > 0 ==> previous == runs@[i - 1]@[1],
        decreases runs@.len() - i,
    {
        if i % 1024 == 0 {
            check_cancel(cancel)?;
        }
        let start: u32 = runs[i][0];
        let end: u32 = runs[i][1];
        let ghost step = runs_through(selected, runs@, cells as int, max, (i + 1) as nat);
        if !(start < end && end as usize <= cells && (i == 0 || start >= previous)) {
            proof {
                assert(step == Err::<u64, Error>(Error::RequestRuns));
                lemma_runs_stop(
                    selected,
                    runs@,
                    cells as int,
                    max,
                    (i + 1) as nat,
                    runs@.len(),
                );
            }
            return Err(Error::RequestRuns);
        }
        match total.checked_add((end - start) as u64) {
            None => {
                proof {
                    lemma_runs_stop(
                        selected,
                        runs@,
                        cells as int,
                        max,
                        (i + 1) as nat,
                        runs@.len(),
                    );
                }
                return Err(Error::RequestSelection);
            },
            Some(next) => {
                if next > max {
                    proof {
                        lemma_runs_stop(
                            selected,
                            runs@,
                            cells as int,
                            max,
                            (i + 1) as nat,
                            runs@.len(),
                        );
                    }
                    return Err(Error::RequestSelected);
                }
                total = next;
            },
        }
        previous = end;
        i += 1;
    }
    Ok(total)
}

fn count_window<C: Cancel>(t: Tally, window: &OrderedWindow, l: Limits, cancel: &C) -> (r: Result<
    Tally,
    Error,
>)
    ensures
        r == Err::<Tally, Error>(Error::Cancelled) ==> !cancel.never(),
        r != Err::<Tally, Error>(Error::Cancelled) ==> r == with_window(t, *window, l),
{
    let x: usize = window.window[0];
    let y: usize = window.window[1];
    let w: usize = window.window[2];
    let h: usize = window.window[3];
    let cells: usize = match w.checked_mul(h) {
        Some(cells) => cells,
        None => return Err(Error::RequestWindowOverflow),
    };
    let inside = w > 0 && h > 0 && cells as u64 <= u32::MAX as u64 && match x.checked_add(w) {
        Some(end) => end <= l.width,
        None => false,
    } && match y.checked_add(h) {
        Some(end) => end <= l.height,
        None => false,
    };
    if !inside {
        return Err(Error::RequestWindow);
    }
    if window.indexes.is_some() == window.runs.is_some() {
        return Err(Error::RequestChoice);
    }
    let size: usize = if window.indexes.is_some() {
        l.sizes.index
    } else {
        l.sizes.run
    };
    let memory: usize = add_bytes(t.memory, window.capacity, size)?;
    if memory > l.planning_bytes {
        return Err(Error::RequestPlanning);
    }
    let mut selected: u64 = t.selected;
    if let Some(indexes) = &window.indexes {
        selected = match t.selected.checked_add(indexes.len() as u64) {
            Some(selected) => selected,
            None => return Err(Error::RequestSelection),
        };
        if selected > l.max_contributions {
            return Err(Error::RequestSelected);
        }
        check_indexes(indexes.as_slice(), cells, cancel)?;
    } else if let Some(runs) = &window.runs {
        selected = count_runs(t.selected, runs.as_slice(), cells, l.max_contributions, cancel)?;
    }
    let envelope = if selected > t.selected {
        Some(
            match t.envelope {
                None => (x, y, x + w, y + h),
                Some(b) => (
                    if x < b.0 {
                        x
                    } else {
                        b.0
                    },
                    if y < b.1 {
                        y
                    } else {
                        b.1
                    },
                    if x + w > b.2 {
                        x + w
                    } else {
                        b.2
                    },
                    if y + h > b.3 {
                        y + h
                    } else {
                        b.3
                    },
                ),
            },
        )
    } else {
        t.envelope
    };
    Ok(Tally { memory, windows: t.windows, selected, envelope })
}

fn count_windows<C: Cancel>(
    t: Tally,
    windows: &Vec<OrderedWindow>,
    l: Limits,
    cancel: &C,
) -> (r: Result<Tally, Error>)
    ensures
        r == Err::<Tally, Error>(Error::Cancelled) ==> !cancel.never(),
        r != Err::<Tally, Error>(Error::Cancelled) ==> r == with_windows(
            t,
            windows@,
            l,
            windows@.len(),
        ),
{
    let mut counted: Tally = t;
    let mut k: usize = 0;
    while k < windows.len()
        invariant
            k <= windows@.len(),
            with_windows(t, windows@, l, k as nat) == Ok::<Tally, Error>(counted),
        decreases windows@.len() - k,
    {
        let ghost step = with_windows(t, windows@, l, (k + 1) as nat);
        assert(step == with_window(counted, windows@[k as int], l));
        match count_window(counted, &windows[k], l, cancel) {
            Ok(next) => {
                counted = next;
            },
            Err(e) => {
                proof {
                    if e != Error::Cancelled {
                        lemma_windows_stop(t, windows@, l, (k + 1) as nat, windows@.len());
                    }
                }
                return Err(e);
            },
        }
        k += 1;
    }
    Ok(counted)
}

fn is_named(polygons: &Vec<OrderedPolygon>, p: usize) -> (r: bool)
    requires
        p < polygons@.len(),
    ensures
        r == named(polygons@, p as int),
{
    let id = polygons[p].id.as_str();
    if !bounded_label(id, 128) {
        return false;
    }
    let mut q: usize = 0;
    while q < p
        invariant
            q <= p < polygons@.len(),
            id@ == polygons@[p as int].id@,
            forall|k: int| 0 <= k < q ==> (#[trigger] polygons@[k]).id@ != id@,
        decreases p - q,
    {
        if same(polygons[q].id.as_str(), id) {
            assert(polygons@[q as int].id@ == id@);
            return false;
        }
        q += 1;
    }
    true
}

fn enter(t: Tally, polygon: &OrderedPolygon, l: Limits) -> (r: Result<Tally, Error>)
    ensures
        r == entered(t, *polygon, l),
{
    let windows: usize = match t.windows.checked_add(polygon.windows.len()) {
        Some(windows) => windows,
        None => return Err(Error::RequestWindows),
    };
    if windows > 4096 {
        return Err(Error::RequestWindowCount);
    }
    let memory: usize = add_bytes(t.memory, polygon.id_capacity, 1)?;
    let memory: usize = add_bytes(memory, polygon.window_capacity, l.sizes.window)?;
    Ok(Tally { memory, windows, selected: t.selected, envelope: t.envelope })
}

fn count_polygons<C: Cancel>(
    t: Tally,
    polygons: &Vec<OrderedPolygon>,
    l: Limits,
    cancel: &C,
) -> (r: Result<Tally, Error>)
    ensures
        r == Err::<Tally, Error>(Error::Cancelled) ==> !cancel.never(),
        cancel.always() && polygons@.len() > 0 ==> r is Err,
        r != Err::<Tally, Error>(Error::Cancelled) ==> r == with_polygons(
            t,
            polygons@,
            l,
            polygons@.len(),
        ),
{
    let mut counted: Tally = t;
    let mut p: usize = 0;
    while p < polygons.len()
        invariant
            p <= polygons@.len(),
            cancel.always() ==> p == 0,
            with_polygons(t, polygons@, l, p as nat) == Ok::<Tally, Error>(counted),
        decreases polygons@.len() - p,
    {
        check_cancel(cancel)?;
        let ghost n = polygons@.len();
        if !is_named(polygons, p) {
            proof {
                lemma_polygons_stop(t, polygons@, l, (p + 1) as nat, n);
            }
            return Err(Error::RequestPolygon);
        }
        let started: Tally = match enter(counted, &polygons[p], l) {
            Ok(started) => started,
            Err(e) => {
                proof {
                    lemma_polygons_stop(t, polygons@, l, (p + 1) as nat, n);
                }
                return Err(e);
            },
        };
        match count_windows(started, &polygons[p].windows, l, cancel) {
            Ok(next) => {
                counted = next;
            },
            Err(e) => {
                proof {
                    if e != Error::Cancelled {
                        lemma_polygons_stop(t, polygons@, l, (p + 1) as nat, n);
                    }
                }
                return Err(e);
            },
        }
        p += 1;
    }
    Ok(counted)
}

/// The bands of a request: all of them, where it names none.
pub open spec fn bands_of(request: OrderedRequest, count: int) -> Seq<usize> {
    if request.bands@.len() == 0 {
        Seq::new(count as nat, |i: int| i as usize)
    } else {
        request.bands@
    }
}

pub open spec fn limits_of(request: OrderedRequest, width: usize, height: usize, sizes: Sizes) -> Limits {
    Limits {
        width,
        height,
        planning_bytes: request.planning_bytes,
        max_contributions: request.max_contributions,
        sizes,
    }
}

/// The memory of the request itself and of its lists.
pub open spec fn base_memory(request: OrderedRequest, sizes: Sizes) -> Result<usize, Error> {
    match charged(sizes.request, request.polygon_capacity, sizes.polygon) {
        Err(e) => Err(e),
        Ok(memory) => charged(memory, request.band_capacity, sizes.band),
    }
}

/// What is counted over a whole request whose lists are in order, or why it is refused.
pub open spec fn tallied(request: OrderedRequest, l: Limits) -> Result<Tally, Error> {
    match base_memory(request, l.sizes) {
        Err(e) => Err(e),
        Ok(memory) => with_polygons(
            Tally { memory, windows: 0, selected: 0, envelope: None },
            request.polygons@,
            l,
            request.polygons@.len(),
        ),
    }
}

/// Why a request is refused, if it is. `reserved` is what reserving memory for it gives.
pub open spec fn request_refusal(
    request: OrderedRequest,
    count: int,
    width: usize,
    height: usize,
    sizes: Sizes,
    reserved: Result<usize, Error>,
) -> Option<Error> {
    let l = limits_of(request, width, height, sizes);
    let bands = bands_of(request, count);
    if reserved is Err {
        Some(reserved->Err_0)
    } else if !(0 < request.polygons@.len() <= 256 && request.bands@.len() <= count) {
        Some(Error::RequestCount)
    } else if !((forall|i: int| 0 <= i < bands.len() ==> (#[trigger] bands[i]) < count)
        && bands.no_duplicates()) {
        Some(Error::RequestBands)
    } else if request.overrides_nodata {
        Some(Error::RequestNodata)
    } else {
        match tallied(request, l) {
            Err(e) => Some(e),
            Ok(t) => if t.memory > request.planning_bytes {
                Some(Error::RequestPlanning)
            } else if t.selected * bands.len() > u64::MAX {
                Some(Error::RequestContribution)
            } else if t.selected * bands.len() > request.max_contributions {
                Some(Error::RequestContributions)
            } else {
                None
            },
        }
    }
}

/// The left, top, width and height of an envelope.
pub open spec fn sides(envelope: Option<(usize, usize, usize, usize)>) -> Option<Seq<int>> {
    match envelope {
        None => None,
        Some(b) => Some(seq![b.0 as int, b.1 as int, b.2 - b.0, b.3 - b.1]),
    }
}

/// What is reported of a request.
pub open spec fn reports(facts: RequestFacts, request: OrderedRequest, t: Tally, count: int) -> bool {
    &&& facts.selected_bands@ == bands_of(request, count)
    &&& facts.polygon_count == request.polygons@.len()
    &&& facts.window_count == t.windows
    &&& facts.selected_cells == t.selected
    &&& facts.selected_contributions == t.selected * bands_of(request, count).len()
    &&& match (facts.window_envelope, sides(t.envelope)) {
        (Some(a), Some(b)) => forall|i: int| 0 <= i < 4 ==> #[trigger] a@[i] == b[i],
        (None, None) => true,
        _ => false,
    }
    &&& facts.envelope_cells == match sides(t.envelope) {
        Some(b) => b[2] * b[3],
        None => 0,
    }
}

/// An envelope lies in the grid, and its sides have cells.
pub open spec fn enveloped(t: Tally, l: Limits) -> bool {
    t.envelope matches Some(b) ==> b.0 < b.2 <= l.width && b.1 < b.3 <= l.height
}

proof fn lemma_window_envelope(t: Tally, window: OrderedWindow, l: Limits)
    requires
        enveloped(t, l),
        with_window(t, window, l) is Ok,
    ensures
        enveloped(with_window(t, window, l)->Ok_0, l),
{
}

proof fn lemma_windows_envelope(t: Tally, windows: Seq<OrderedWindow>, l: Limits, k: nat)
    requires
        enveloped(t, l),
        with_windows(t, windows, l, k) is Ok,
    ensures
        enveloped(with_windows(t, windows, l, k)->Ok_0, l),
    decreases k,
{
    if k > 0 {
        lemma_windows_envelope(t, windows, l, (k - 1) as nat);
        lemma_window_envelope(
            with_windows(t, windows, l, (k - 1) as nat)->Ok_0,
            windows[k - 1],
            l,
        );
    }
}

proof fn lemma_polygons_envelope(t: Tally, polygons: Seq<OrderedPolygon>, l: Limits, p: nat)
    requires
        enveloped(t, l),
        with_polygons(t, polygons, l, p) is Ok,
    ensures
        enveloped(with_polygons(t, polygons, l, p)->Ok_0, l),
    decreases p,
{
    if p > 0 {
        lemma_polygons_envelope(t, polygons, l, (p - 1) as nat);
        let before = with_polygons(t, polygons, l, (p - 1) as nat)->Ok_0;
        let started = entered(before, polygons[p - 1], l)->Ok_0;
        lemma_windows_envelope(
            started,
            polygons[p - 1].windows@,
            l,
            polygons[p - 1].windows@.len(),
        );
    }
}

fn bands_selected(request: &OrderedRequest, count: usize) -> (r: Vec<usize>)
    ensures
        r@ == bands_of(*request, count as int),
{
    let mut bands: Vec<usize> = Vec::new();
    if request.bands.len() == 0 {
        let mut i: usize = 0;
        while i < count
            invariant
                i <= count,
                bands@.len() == i,
                forall|k: int| 0 <= k < i ==> bands@[k] == k,
            decreases count - i,
        {
            bands.push(i);
            i += 1;
        }
        assert(bands@ =~= bands_of(*request, count as int));
    } else {
        let mut i: usize = 0;
        while i < request.bands.len()
            invariant
                i <= request.bands@.len(),
                bands@ == request.bands@.take(i as int),
            decreases request.bands@.len() - i,
        {
            bands.push(request.bands[i]);
            assert(bands@ =~= request.bands@.take(i + 1));
            i += 1;
        }
        assert(request.bands@.take(request.bands@.len() as int) =~= request.bands@);
    }
    bands
}

fn below(values: &[usize], n: usize) -> (r: bool)
    ensures
        r == forall|i: int| 0 <= i < values@.len() ==> (#[trigger] values@[i]) < n,
{
    let mut i: usize = 0;
    while i < values.len()
        invariant
            i <= values@.len(),
            forall|k: int| 0 <= k < i ==> (#[trigger] values@[k]) < n,
        decreases values@.len() - i,
    {
        if values[i] >= n {
            assert(values@[i as int] >= n);
            return false;
        }
        i += 1;
    }
    true
}

/// Count what a request asks of a view with `count` bands and a grid of these sides.
pub fn request_facts<C: Cancel>(
    request: &OrderedRequest,
    count: usize,
    width: usize,
    height: usize,
    sizes: Sizes,
    reserved: Result<usize, Error>,
    cancel: &C,
) -> (r: Result<RequestFacts, Error>)
    requires
        width <= MAX_SIDE,
        height <= MAX_SIDE,
        reserved != Err::<usize, Error>(Error::Cancelled),
    ensures
        ended(
            cancel,
            r,
            match request_refusal(*request, count as int, width, height, sizes, reserved) {
                Some(e) => r is Err && r->Err_0 == e,
                None => r matches Ok(facts) && reports(
                    facts,
                    *request,
                    tallied(*request, limits_of(*request, width, height, sizes))->Ok_0,
                    count as int,
                ),
            },
        ),
{
    if let Err(e) = reserved {
        return Err(e);
    }
    if !(request.polygons.len() > 0 && request.polygons.len() <= 256 && request.bands.len()
        <= count) {
        return Err(Error::RequestCount);
    }
    let selected_bands = bands_selected(request, count);
    if !(below(selected_bands.as_slice(), count) && distinct(selected_bands.as_slice())) {
        return Err(Error::RequestBands);
    }
    if request.overrides_nodata {
        return Err(Error::RequestNodata);
    }
    let l = Limits {
        width,
        height,
        planning_bytes: request.planning_bytes,
        max_contributions: request.max_contributions,
        sizes,
    };
    let memory: usize = add_bytes(sizes.request, request.polygon_capacity, sizes.polygon)?;
    let memory: usize = add_bytes(memory, request.band_capacity, sizes.band)?;
    let start = Tally { memory, windows: 0, selected: 0, envelope: None };
    let t: Tally = count_polygons(start, &request.polygons, l, cancel)?;
    proof {
        lemma_polygons_envelope(start, request.polygons@, l, request.polygons@.len());
    }
    if t.memory > request.planning_bytes {
        return Err(Error::RequestPlanning);
    }
    let contributions: u64 = match t.selected.checked_mul(selected_bands.len() as u64) {
        Some(contributions) => contributions,
        None => return Err(Error::RequestContribution),
    };
    if contributions > request.max_contributions {
        return Err(Error::RequestContributions);
    }
    let mut window_envelope: Option<[usize; 4]> = None;
    let mut envelope_cells: u64 = 0;
    if let Some(b) = t.envelope {
        let w: usize = b.2 - b.0;
        let h: usize = b.3 - b.1;
        window_envelope = Some([b.0, b.1, w, h]);
        proof {
            assert(0 <= w * h <= MAX_SIDE * MAX_SIDE) by (nonlinear_arith)
                requires
                    0 <= w <= MAX_SIDE,
                    0 <= h <= MAX_SIDE,
            ;
        }
        envelope_cells = w as u64 * h as u64;
    }
    Ok(
        RequestFacts {
            selected_bands,
            polygon_count: request.polygons.len(),
            window_count: t.windows,
            selected_cells: t.selected,
            selected_contributions: contributions,
            window_envelope,
            envelope_cells,
        },
    )
}

/// A value from the first bound of a range to the second.
pub open spec fn within(value: int, range: (int, int)) -> bool {
    range.0 <= value <= range.1
}

/// Whether the accelerated source may serve a request with these facts.
pub open spec fn eligible_request(
    rule: Eligibility,
    facts: RequestFacts,
    access: Seq<char>,
) -> bool {
    let envelope = match facts.window_envelope {
        Some(e) => (e@[2] as int, e@[3] as int),
        None => (0int, 0int),
    };
    &&& rule.enabled
    &&& access != "unknown"@
    &&& listed(rule.access_classes@, access)
    &&& facts.selected_bands@.len() == rule.bands@.len()
    &&& forall|i: int|
        0 <= i < facts.selected_bands@.len() ==> rule.bands@.contains(
            #[trigger] facts.selected_bands@[i],
        )
    &&& within(facts.polygon_count as int, (rule.polygons@[0] as int, rule.polygons@[1] as int))
    &&& within(facts.window_count as int, (rule.windows@[0] as int, rule.windows@[1] as int))
    &&& within(
        facts.selected_cells as int,
        (rule.selected_cells@[0] as int, rule.selected_cells@[1] as int),
    )
    &&& within(envelope.0, (rule.envelope_width@[0] as int, rule.envelope_width@[1] as int))
    &&& within(envelope.1, (rule.envelope_height@[0] as int, rule.envelope_height@[1] as int))
    &&& within(
        facts.envelope_cells as int,
        (rule.envelope_cells@[0] as int, rule.envelope_cells@[1] as int),
    )
}

fn holds_all(values: &[usize], wanted: &[usize]) -> (r: bool)
    ensures
        r == forall|i: int| 0 <= i < wanted@.len() ==> values@.contains(#[trigger] wanted@[i]),
{
    let mut i: usize = 0;
    while i < wanted.len()
        invariant
            i <= wanted@.len(),
            forall|k: int| 0 <= k < i ==> values@.contains(#[trigger] wanted@[k]),
        decreases wanted@.len() - i,
    {
        let mut found: bool = false;
        let mut j: usize = 0;
        while j < values.len()
            invariant
                j <= values@.len(),
                i < wanted@.len(),
                found == exists|k: int| 0 <= k < j && values@[k] == wanted@[i as int],
            decreases values@.len() - j,
        {
            if values[j] == wanted[i] {
                assert(values@[j as int] == wanted@[i as int]);
                found = true;
            }
            j += 1;
        }
        if !found {
            assert(!values@.contains(wanted@[i as int]));
            return false;
        }
        i += 1;
    }
    true
}

/// Whether the accelerated source may serve a request.
pub fn eligible(rule: &Eligibility, facts: &RequestFacts, access: &str) -> (r: bool)
    ensures
        r == eligible_request(*rule, *facts, access@),
{
    let (width, height): (usize, usize) = match facts.window_envelope {
        Some(e) => (e[2], e[3]),
        None => (0, 0),
    };
    rule.enabled && !same(access, "unknown") && is_listed(rule.access_classes.as_slice(), access)
        && facts.selected_bands.len() == rule.bands.len() && holds_all(
        rule.bands.as_slice(),
        facts.selected_bands.as_slice(),
    ) && rule.polygons[0] <= facts.polygon_count && facts.polygon_count <= rule.polygons[1]
        && rule.windows[0] <= facts.window_count && facts.window_count <= rule.windows[1]
        && rule.selected_cells[0] <= facts.selected_cells && facts.selected_cells
        <= rule.selected_cells[1] && rule.envelope_width[0] <= width && width
        <= rule.envelope_width[1] && rule.envelope_height[0] <= height && height
        <= rule.envelope_height[1] && rule.envelope_cells[0] <= facts.envelope_cells
        && facts.envelope_cells <= rule.envelope_cells[1]
}

/// An eligible request asks for exactly the bands of the rule.
pub proof fn an_eligible_request_has_the_bands_of_the_rule(
    rule: Eligibility,
    facts: RequestFacts,
    access: Seq<char>,
)
    requires
        eligible_request(rule, facts, access),
        facts.selected_bands@.no_duplicates(),
        rule.bands@.no_duplicates(),
    ensures
        facts.selected_bands@.to_set() == rule.bands@.to_set(),
{
    let a = facts.selected_bands@;
    let b = rule.bands@;
    a.unique_seq_to_set();
    b.unique_seq_to_set();
    vstd::seq_lib::seq_to_set_is_finite(a);
    vstd::seq_lib::seq_to_set_is_finite(b);
    assert forall|x: usize| a.to_set().contains(x) implies b.to_set().contains(x) by {
        let i = a.index_of(x);
        assert(b.contains(a[i]));
    }
    vstd::set_lib::lemma_subset_equality(a.to_set(), b.to_set());
}

/// What one-shot execution of a profile reserves: the larger of opening the source, and of
/// running beside what it retains, and its own working memory.
pub open spec fn reservation(working: int) -> int {
    let running = working + SOURCE_RETAINED_BYTES;
    (if running > SOURCE_OPEN_BYTES {
        running
    } else {
        SOURCE_OPEN_BYTES as int
    }) + PROFILE_WORKING_BYTES
}

/// The memory that an execution reserves, where that much is available.
pub fn reserve_execution(working: usize, available: usize) -> (r: Result<usize, Error>)
    ensures
        r == (if reservation(working as int) > usize::MAX {
            Err::<usize, Error>(Error::ProfileReservation)
        } else if reservation(working as int) > available {
            Err(Error::ProfileMemory)
        } else {
            Ok(reservation(working as int) as usize)
        }),
{
    let running: usize = match working.checked_add(SOURCE_RETAINED_BYTES) {
        Some(running) => running,
        None => return Err(Error::ProfileReservation),
    };
    let most: usize = if running > SOURCE_OPEN_BYTES {
        running
    } else {
        SOURCE_OPEN_BYTES
    };
    let required: usize = match most.checked_add(PROFILE_WORKING_BYTES) {
        Some(required) => required,
        None => return Err(Error::ProfileReservation),
    };
    if available < required {
        return Err(Error::ProfileMemory);
    }
    Ok(required)
}

/// The access class of a query: what the caller declares, or unknown.
pub open spec fn access_of(access: Option<&str>) -> Seq<char> {
    match access {
        Some(access) => access@,
        None => "unknown"@,
    }
}

/// Why a query is not one that a validated profile speaks of, if it is not. `in_force` is the
/// numerical policy in force.
pub open spec fn query_refusal(
    profile: ServingProfile,
    in_force: Seq<char>,
    policy: Seq<char>,
    view: Seq<char>,
    access: Option<&str>,
) -> Option<Error> {
    if !(policy == in_force && policy == profile.numerical_policy@ && view == profile.view_id@) {
        Some(Error::ProfileQuery)
    } else if !label(access_of(access), 64) {
        Some(Error::ProfileAccess)
    } else {
        None
    }
}

/// Hold a query against a profile.
pub fn check_query(
    profile: &ServingProfile,
    in_force: &str,
    policy: &str,
    view: &str,
    access: Option<&str>,
) -> (r: Result<(), Error>)
    ensures
        r == (match query_refusal(*profile, in_force@, policy@, view@, access) {
            Some(e) => Err::<(), Error>(e),
            None => Ok(()),
        }),
{
    if !(same(policy, in_force) && same(policy, profile.numerical_policy.as_str()) && same(
        view,
        profile.view_id.as_str(),
    )) {
        return Err(Error::ProfileQuery);
    }
    let access: &str = match access {
        Some(access) => access,
        None => "unknown",
    };
    if !bounded_label(access, 64) {
        return Err(Error::ProfileAccess);
    }
    Ok(())
}

/// Which of the two attested sources serves a request.
#[derive(Clone, Copy, Debug, PartialEq, Eq, Structural)]
pub enum Role {
    Direct,
    Accelerated,
}

/// The role that a request gets under a profile.
pub open spec fn role_of(profile: ServingProfile, facts: RequestFacts, access: Option<&str>) -> Role {
    if eligible_request(profile.accelerated_when, facts, access_of(access)) {
        Role::Accelerated
    } else {
        Role::Direct
    }
}

/// Select the source that serves a request, before any source is opened.
pub fn select_role(profile: &ServingProfile, facts: &RequestFacts, access: Option<&str>) -> (r: Role)
    ensures
        r == role_of(*profile, *facts, access),
{
    let access: &str = match access {
        Some(access) => access,
        None => "unknown",
    };
    if eligible(&profile.accelerated_when, facts, access) {
        Role::Accelerated
    } else {
        Role::Direct
    }
}

impl Role {
    /// What the profile pins of the source.
    pub open spec fn pin_of(self, profile: ServingProfile) -> ObjectAttestation {
        match self {
            Role::Direct => profile.attestation.direct,
            Role::Accelerated => profile.attestation.accelerated,
        }
    }

    /// The source, and what the profile pins of it.
    pub fn candidate(self, profile: &ServingProfile) -> (r: (&Candidate, &ObjectAttestation))
        ensures
            *r.0 == (match self {
                Role::Direct => profile.direct,
                Role::Accelerated => profile.accelerated,
            }),
            *r.1 == self.pin_of(*profile),
    {
        match self {
            Role::Direct => (&profile.direct, &profile.attestation.direct),
            Role::Accelerated => (&profile.accelerated, &profile.attestation.accelerated),
        }
    }
}

/// A query on a profile that was routed before any source was opened: the source that serves it,
/// what it asks for, and the memory that it takes.
#[derive(Debug)]
pub struct Routed {
    pub role: Role,
    pub facts: RequestFacts,
    pub reservation: usize,
}

/// A query on a profile, as its caller states it: what checking the coordinates of the two
/// declared grids gives, the policy in force, and the policy, view and access class asked for.
pub struct ProfileQuery<'a> {
    pub affine: (Result<(), Error>, Result<(), Error>),
    pub in_force: &'a str,
    pub policy: &'a str,
    pub view: &'a str,
    pub access: Option<&'a str>,
}

/// Why a query on a profile is refused before any source is opened, if it is.
pub open spec fn route_refusal(
    profile: ServingProfile,
    request: OrderedRequest,
    query: ProfileQuery,
    sizes: Sizes,
    reserved: Result<usize, Error>,
    available: int,
) -> Option<Error> {
    if reserved is Err {
        Some(reserved->Err_0)
    } else if reservation(reserved->Ok_0 as int) > usize::MAX {
        Some(Error::ProfileReservation)
    } else if reservation(reserved->Ok_0 as int) > available {
        Some(Error::ProfileMemory)
    } else if profile_refusal(profile, query.in_force@, query.affine.0, query.affine.1) is Some {
        profile_refusal(profile, query.in_force@, query.affine.0, query.affine.1)
    } else if query_refusal(profile, query.in_force@, query.policy@, query.view@, query.access)
        is Some {
        query_refusal(profile, query.in_force@, query.policy@, query.view@, query.access)
    } else {
        request_refusal(
            request,
            profile.direct.expected.raw_metadata.bands@.len() as int,
            profile.direct.expected.grid.width,
            profile.direct.expected.grid.height,
            sizes,
            reserved,
        )
    }
}

/// Route a query on a profile, before any source is opened. `reserved` is the working memory of
/// the request.
pub fn route_profile<'a, C: Cancel>(
    profile: &ServingProfile,
    request: &OrderedRequest,
    query: &ProfileQuery<'a>,
    sizes: Sizes,
    reserved: Result<usize, Error>,
    available: usize,
    cancel: &C,
) -> (r: Result<Routed, Error>)
    requires
        reserved != Err::<usize, Error>(Error::Cancelled),
        query.affine.0 != Err::<(), Error>(Error::Cancelled),
        query.affine.1 != Err::<(), Error>(Error::Cancelled),
    ensures
        cancel.always() ==> r is Err,
        r == Err::<Routed, Error>(Error::Cancelled) ==> !cancel.never() || route_refusal(
            *profile,
            *request,
            *query,
            sizes,
            reserved,
            available as int,
        ) == Some(Error::Cancelled),
        r is Err && r->Err_0 == Error::Cancelled || match route_refusal(
            *profile,
            *request,
            *query,
            sizes,
            reserved,
            available as int,
        ) {
            Some(e) => r is Err && r->Err_0 == e,
            None => {
                &&& r matches Ok(routed)
                &&& routed.role == role_of(*profile, routed.facts, query.access)
                &&& routed.reservation == reservation(reserved->Ok_0 as int)
                &&& reports(
                    routed.facts,
                    *request,
                    tallied(
                        *request,
                        limits_of(
                            *request,
                            profile.direct.expected.grid.width,
                            profile.direct.expected.grid.height,
                            sizes,
                        ),
                    )->Ok_0,
                    profile.direct.expected.raw_metadata.bands@.len() as int,
                )
            },
        },
{
    check_cancel(cancel)?;
    let working: usize = match reserved {
        Ok(working) => working,
        Err(e) => return Err(e),
    };
    let required: usize = reserve_execution(working, available)?;
    let grid = match profile.validate(query.in_force, query.affine.0, query.affine.1) {
        Ok(grid) => grid,
        Err(e) => return Err(e),
    };
    check_query(profile, query.in_force, query.policy, query.view, query.access)?;
    let facts: RequestFacts = match request_facts(
        request,
        profile.direct.expected.raw_metadata.bands.len(),
        profile.direct.expected.grid.width,
        profile.direct.expected.grid.height,
        sizes,
        reserved,
        cancel,
    ) {
        Ok(facts) => facts,
        Err(e) => return Err(e),
    };
    let role: Role = select_role(profile, &facts, query.access);
    check_cancel(cancel)?;
    Ok(Routed { role, facts, reservation: required })
}

/// Why the one source that was opened is not the attested one, if it is not: what it retains,
/// its view where it shows one, and what the profile pins of that.
pub open spec fn selected_refusal(
    retained: int,
    view: Option<&ExpectedView>,
    pin: ObjectAttestation,
) -> Option<Error> {
    if retained > SOURCE_RETAINED_BYTES {
        Some(Error::ProfileRetained)
    } else {
        match view {
            None => Some(Error::ProfileRaw),
            Some(view) => if text_digest(view_text(*view, true)) != pin.expected_view_sha256@ {
                Some(Error::ProfileOpened)
            } else {
                None
            },
        }
    }
}

/// Hold the opened source against its attestation. There is no other source to fall back on.
pub fn check_selected(retained: usize, view: Option<&ExpectedView>, pin: &ObjectAttestation) -> (r:
    Result<(), Error>)
    ensures
        r == (match selected_refusal(retained as int, view, *pin) {
            Some(e) => Err::<(), Error>(e),
            None => Ok(()),
        }),
{
    if retained > SOURCE_RETAINED_BYTES {
        return Err(Error::ProfileRetained);
    }
    match view {
        None => Err(Error::ProfileRaw),
        Some(view) => {
            let digest = expected_view_sha256(view);
            if same(digest.as_str(), pin.expected_view_sha256.as_str()) {
                Ok(())
            } else {
                Err(Error::ProfileOpened)
            }
        },
    }
}

/// The cells that the first `k` runs hold.
pub open spec fn run_cells(runs: Seq<[u32; 2]>, k: nat) -> int
    decreases k,
{
    if k == 0 {
        0
    } else {
        run_cells(runs, (k - 1) as nat) + (runs[k - 1]@[1] - runs[k - 1]@[0])
    }
}

/// How many cells a window selects.
pub open spec fn selection(window: OrderedWindow) -> int {
    match window.indexes {
        Some(indexes) => indexes@.len() as int,
        None => match window.runs {
            Some(runs) => run_cells(runs@, runs@.len()),
            None => 0,
        },
    }
}

pub open spec fn window_cells(windows: Seq<OrderedWindow>, k: nat) -> int
    decreases k,
{
    if k == 0 {
        0
    } else {
        window_cells(windows, (k - 1) as nat) + selection(windows[k - 1])
    }
}

/// The cells that the first `p` polygons select, counted once for each window that does.
pub open spec fn polygon_cells(polygons: Seq<OrderedPolygon>, p: nat) -> int
    decreases p,
{
    if p == 0 {
        0
    } else {
        polygon_cells(polygons, (p - 1) as nat) + window_cells(
            polygons[p - 1].windows@,
            polygons[p - 1].windows@.len(),
        )
    }
}

pub open spec fn polygon_windows(polygons: Seq<OrderedPolygon>, p: nat) -> int
    decreases p,
{
    if p == 0 {
        0
    } else {
        polygon_windows(polygons, (p - 1) as nat) + polygons[p - 1].windows@.len()
    }
}

/// A window lies in the envelope of a tally.
pub open spec fn covers(t: Tally, window: OrderedWindow) -> bool {
    let w = window.window@;
    t.envelope matches Some(b) && b.0 <= w[0] && b.1 <= w[1] && w[0] + w[2] <= b.2 && w[1] + w[3]
        <= b.3
}

/// The envelope of `a` lies in that of `b`.
pub open spec fn grows(a: Tally, b: Tally) -> bool {
    match (a.envelope, b.envelope) {
        (None, _) => true,
        (Some(x), Some(y)) => y.0 <= x.0 && y.1 <= x.1 && x.2 <= y.2 && x.3 <= y.3,
        _ => false,
    }
}

proof fn lemma_run_cells(selected: u64, runs: Seq<[u32; 2]>, cells: int, max: u64, k: nat)
    requires
        runs_through(selected, runs, cells, max, k) is Ok,
    ensures
        runs_through(selected, runs, cells, max, k)->Ok_0 == selected + run_cells(runs, k),
        run_cells(runs, k) >= 0,
    decreases k,
{
    if k > 0 {
        lemma_run_cells(selected, runs, cells, max, (k - 1) as nat);
    }
}

proof fn lemma_window_counted(t: Tally, window: OrderedWindow, l: Limits)
    requires
        with_window(t, window, l) is Ok,
    ensures
        ({
            let next = with_window(t, window, l)->Ok_0;
            &&& next.selected == t.selected + selection(window)
            &&& next.windows == t.windows
            &&& grows(t, next)
            &&& selection(window) > 0 ==> covers(next, window)
        }),
{
    if let Some(runs) = window.runs {
        let cells = window.window@[2] * window.window@[3];
        lemma_run_cells(t.selected, runs@, cells, l.max_contributions, runs@.len());
    }
}

proof fn lemma_windows_counted(t: Tally, windows: Seq<OrderedWindow>, l: Limits, k: nat)
    requires
        with_windows(t, windows, l, k) is Ok,
    ensures
        ({
            let next = with_windows(t, windows, l, k)->Ok_0;
            &&& next.selected == t.selected + window_cells(windows, k)
            &&& next.windows == t.windows
            &&& grows(t, next)
            &&& forall|i: int|
                0 <= i < k && selection(#[trigger] windows[i]) > 0 ==> covers(next, windows[i])
        }),
    decreases k,
{
    if k > 0 {
        let before = with_windows(t, windows, l, (k - 1) as nat)->Ok_0;
        lemma_windows_counted(t, windows, l, (k - 1) as nat);
        lemma_window_counted(before, windows[k - 1], l);
    }
}

proof fn lemma_polygons_counted(t: Tally, polygons: Seq<OrderedPolygon>, l: Limits, p: nat)
    requires
        with_polygons(t, polygons, l, p) is Ok,
    ensures
        ({
            let next = with_polygons(t, polygons, l, p)->Ok_0;
            &&& next.selected == t.selected + polygon_cells(polygons, p)
            &&& next.windows == t.windows + polygon_windows(polygons, p)
            &&& grows(t, next)
            &&& forall|q: int, i: int|
                0 <= q < p && 0 <= i < polygons[q].windows@.len() && selection(
                    #[trigger] polygons[q].windows@[i],
                ) > 0 ==> covers(next, polygons[q].windows@[i])
        }),
    decreases p,
{
    if p > 0 {
        let before = with_polygons(t, polygons, l, (p - 1) as nat)->Ok_0;
        lemma_polygons_counted(t, polygons, l, (p - 1) as nat);
        let polygon = polygons[p - 1];
        let started = entered(before, polygon, l)->Ok_0;
        lemma_windows_counted(started, polygon.windows@, l, polygon.windows@.len());
    }
}

/// What is reported of a request is what it holds: each window counts once, each selected
/// cell once for every window that selects it, and every window that selects a cell lies in
/// the envelope.
pub proof fn facts_count_the_request(request: OrderedRequest, l: Limits)
    requires
        tallied(request, l) is Ok,
    ensures
        ({
            let t = tallied(request, l)->Ok_0;
            let polygons = request.polygons@;
            &&& t.windows == polygon_windows(polygons, polygons.len())
            &&& t.selected == polygon_cells(polygons, polygons.len())
            &&& forall|q: int, i: int|
                0 <= q < polygons.len() && 0 <= i < polygons[q].windows@.len() && selection(
                    #[trigger] polygons[q].windows@[i],
                ) > 0 ==> covers(t, polygons[q].windows@[i])
        }),
{
    let start = Tally {
        memory: base_memory(request, l.sizes)->Ok_0,
        windows: 0,
        selected: 0,
        envelope: None,
    };
    lemma_polygons_counted(start, request.polygons@, l, request.polygons@.len());
}

} // verus!
