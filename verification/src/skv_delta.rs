//! Reversible byte-only transform of the sample prefix of a band.
//!
//! Samples stand cell after cell; their differences stand plane after plane. Planes span the
//! actual tile, and each row starts anew. The mask suffix is untouched.
use vstd::prelude::*;

use crate::cancel::{check_cancel, ended, Cancel};
use crate::error::Error;
use crate::index::{lemma_row_major, lemma_row_of};
use crate::skv_group::{
    admitted, band_bytes, band_index, holds, lane, lemma_lane_position, mask, running, sample,
};

verus! {

pub const MAX_PREDICTOR_SCRATCH: usize = 524288;

/// The sample byte of a cell and a plane, or nothing before a row.
pub open spec fn cell_byte(payload: Seq<u8>, w: int, s: int, row: int, plane: int, x: int) -> u8 {
    if x < 0 {
        0
    } else {
        payload[(row * w + x) * s + plane]
    }
}

/// The difference of a cell to the cell before it in its row and plane.
pub open spec fn difference(payload: Seq<u8>, w: int, s: int, row: int, plane: int, x: int) -> u8 {
    ((cell_byte(payload, w, s, row, plane, x) - cell_byte(payload, w, s, row, plane, x - 1)) % 256) as u8
}

/// The sum of a row's differences in a plane up to a cell.
pub open spec fn total(payload: Seq<u8>, w: int, h: int, row: int, plane: int, x: int) -> u8
    decreases x + 1,
{
    if x < 0 {
        0
    } else {
        ((total(payload, w, h, row, plane, x - 1) + payload[plane * (w * h) + row * w + x]) % 256) as u8
    }
}

/// The transform of a band: to differences, or back.
pub open spec fn transformed(payload: Seq<u8>, w: int, h: int, s: int, inverse: bool) -> Seq<u8> {
    Seq::new(
        payload.len(),
        |i: int|
            if i >= w * h * s {
                payload[i]
            } else if inverse {
                total(payload, w, h, i / s / w, i % s, i / s % w)
            } else {
                difference(payload, w, s, i % (w * h) / w, i / (w * h), i % (w * h) % w)
            },
    )
}

pub open spec fn delta_shape(w: int, h: int, s: int) -> bool {
    &&& 1 <= w <= 256
    &&& 1 <= h <= 256
    &&& s == 1 || s == 2 || s == 4 || s == 8
}

/// Positions of a row, a plane and a column, before and after the transform.
proof fn lemma_places(w: int, h: int, s: int, row: int, plane: int, x: int)
    requires
        delta_shape(w, h, s),
        0 <= row < h,
        0 <= plane < s,
        0 <= x < w,
    ensures
        0 < w * h <= 65536,
        w * h * s <= MAX_PREDICTOR_SCRATCH,
        0 <= row * w,
        0 <= row * w + x < w * h,
        0 <= plane * (w * h),
        0 <= plane * (w * h) + row * w + x < w * h * s,
        (plane * (w * h) + row * w + x) / (w * h) == plane,
        (plane * (w * h) + row * w + x) % (w * h) / w == row,
        (plane * (w * h) + row * w + x) % (w * h) % w == x,
        0 <= (row * w + x) * s,
        0 <= (row * w + x) * s + plane < w * h * s,
        ((row * w + x) * s + plane) % s == plane,
        ((row * w + x) * s + plane) / s / w == row,
        ((row * w + x) * s + plane) / s % w == x,
{
    let cells = w * h;
    assert(0 < cells <= 65536) by (nonlinear_arith)
        requires
            cells == w * h,
            1 <= w <= 256,
            1 <= h <= 256,
    ;
    assert(cells * s <= 524288) by (nonlinear_arith)
        requires
            0 < cells <= 65536,
            0 < s <= 8,
    ;
    lemma_row_major(row, x, w, h);
    assert(h * w == cells) by (nonlinear_arith)
        requires
            cells == w * h,
    ;
    let cell = row * w + x;
    lemma_row_major(plane, cell, cells, s);
    lemma_row_major(cell, plane, s, cells);
    assert(s * cells == cells * s) by (nonlinear_arith);
    assert(0 <= row * w && 0 <= plane * cells && 0 <= cell * s) by (nonlinear_arith)
        requires
            0 <= row,
            0 < w,
            0 <= plane,
            0 < cells,
            0 <= cell,
            0 < s,
    ;
}

/// Every sample position has a row, a plane and a column.
proof fn lemma_cell_place(w: int, h: int, s: int, i: int)
    requires
        delta_shape(w, h, s),
        0 <= i < w * h * s,
    ensures
        0 <= i / s / w < h,
        0 <= i % s < s,
        0 <= i / s % w < w,
        (i / s / w * w + i / s % w) * s + i % s == i,
{
    lemma_row_of(i, s, w * h);
    assert(h * w == w * h) by (nonlinear_arith);
    lemma_row_of(i / s, w, h);
}

proof fn lemma_plane_place(w: int, h: int, s: int, i: int)
    requires
        delta_shape(w, h, s),
        0 <= i < w * h * s,
    ensures
        0 <= i % (w * h) / w < h,
        0 <= i / (w * h) < s,
        0 <= i % (w * h) % w < w,
        i / (w * h) * (w * h) + i % (w * h) / w * w + i % (w * h) % w == i,
{
    let cells = w * h;
    assert(cells > 0) by (nonlinear_arith)
        requires
            cells == w * h,
            w >= 1,
            h >= 1,
    ;
    assert(cells * s == s * cells) by (nonlinear_arith);
    lemma_row_of(i, cells, s);
    assert(h * w == w * h) by (nonlinear_arith);
    lemma_row_of(i % cells, w, h);
}

proof fn lemma_total_of_differences(
    payload: Seq<u8>,
    coded: Seq<u8>,
    w: int,
    h: int,
    s: int,
    row: int,
    plane: int,
    x: int,
)
    requires
        delta_shape(w, h, s),
        payload.len() == w * h * (s + 1),
        coded == transformed(payload, w, h, s, false),
        0 <= row < h,
        0 <= plane < s,
        -1 <= x < w,
    ensures
        total(coded, w, h, row, plane, x) == cell_byte(payload, w, s, row, plane, x),
    decreases x + 1,
{
    if x >= 0 {
        lemma_total_of_differences(payload, coded, w, h, s, row, plane, x - 1);
        lemma_places(w, h, s, row, plane, x);
        assert(w * h * s <= w * h * (s + 1)) by (nonlinear_arith)
            requires
                0 < w * h,
        ;
        let j = plane * (w * h) + row * w + x;
        assert(coded[j] == difference(payload, w, s, row, plane, x));
        let a = cell_byte(payload, w, s, row, plane, x);
        let b = cell_byte(payload, w, s, row, plane, x - 1);
        assert((b + (a - b) % 256) % 256 == a as int);
    }
}

/// Taking differences and summing them gives the band back.
pub proof fn inverse_undoes_forward(payload: Seq<u8>, w: int, h: int, s: int)
    requires
        delta_shape(w, h, s),
        payload.len() == w * h * (s + 1),
    ensures
        transformed(transformed(payload, w, h, s, false), w, h, s, true) == payload,
{
    let coded = transformed(payload, w, h, s, false);
    let back = transformed(coded, w, h, s, true);
    assert forall|i: int| 0 <= i < payload.len() implies back[i] == payload[i] by {
        if i < w * h * s {
            lemma_cell_place(w, h, s, i);
            lemma_total_of_differences(
                payload,
                coded,
                w,
                h,
                s,
                i / s / w,
                i % s,
                i / s % w,
            );
        }
    }
    assert(back =~= payload);
}

/// Summing differences and taking them again gives the differences back.
pub proof fn forward_undoes_inverse(payload: Seq<u8>, w: int, h: int, s: int)
    requires
        delta_shape(w, h, s),
        payload.len() == w * h * (s + 1),
    ensures
        transformed(transformed(payload, w, h, s, true), w, h, s, false) == payload,
{
    let plain = transformed(payload, w, h, s, true);
    let back = transformed(plain, w, h, s, false);
    assert(w * h * s <= w * h * (s + 1)) by (nonlinear_arith)
        requires
            0 < w,
            0 < h,
    ;
    assert forall|i: int| 0 <= i < payload.len() implies back[i] == payload[i] by {
        if i < w * h * s {
            lemma_plane_place(w, h, s, i);
            let plane = i / (w * h);
            let row = i % (w * h) / w;
            let x = i % (w * h) % w;
            lemma_places(w, h, s, row, plane, x);
            assert(cell_byte(plain, w, s, row, plane, x) == total(payload, w, h, row, plane, x));
            if x > 0 {
                lemma_places(w, h, s, row, plane, x - 1);
            }
            assert(cell_byte(plain, w, s, row, plane, x - 1) == total(
                payload,
                w,
                h,
                row,
                plane,
                x - 1,
            ));
            let before = total(payload, w, h, row, plane, x - 1);
            let step = payload[i];
            assert(((before + step) % 256 - before) % 256 == step as int);
        }
    }
    assert(back =~= payload);
}

/// What a refused transform is refused for.
pub open spec fn delta_refusal(
    payload: int,
    sample_bytes: int,
    w: int,
    h: int,
    s: int,
) -> Option<Error> {
    if !delta_shape(w, h, s) {
        Some(Error::PredictorShape)
    } else if !(w * h * s == sample_bytes && sample_bytes + w * h == payload) {
        Some(Error::PredictorLength)
    } else {
        None
    }
}

/// Transform a band in place. Only a transform that runs to its end changes it.
#[verifier::rlimit(60)]
#[verifier::spinoff_prover]
pub fn byte_delta<C: Cancel>(
    payload: &mut [u8],
    sample_bytes: usize,
    width: usize,
    height: usize,
    scalar_bytes: usize,
    inverse: bool,
    cancel: &C,
) -> (r: Result<usize, Error>)
    ensures
        r is Err ==> final(payload)@ == old(payload)@,
        ended(
            cancel,
            r,
            match delta_refusal(
                old(payload)@.len() as int,
                sample_bytes as int,
                width as int,
                height as int,
                scalar_bytes as int,
            ) {
                Some(e) => r == Err::<usize, Error>(e),
                None => r == Ok::<usize, Error>(sample_bytes) && final(payload)@ == transformed(
                    old(payload)@,
                    width as int,
                    height as int,
                    scalar_bytes as int,
                    inverse,
                ),
            },
        ),
{
    check_cancel(cancel)?;
    if !(1 <= width && width <= 256 && 1 <= height && height <= 256 && (scalar_bytes == 1
        || scalar_bytes == 2 || scalar_bytes == 4 || scalar_bytes == 8)) {
        return Err(Error::PredictorShape);
    }
    let ghost w = width as int;
    let ghost h = height as int;
    let ghost s = scalar_bytes as int;
    proof {
        lemma_places(w, h, s, 0, 0, 0);
    }
    let cells: usize = width * height;
    let length: usize = payload.len();
    if cells * scalar_bytes != sample_bytes || sample_bytes + cells != length {
        return Err(Error::PredictorLength);
    }
    let ghost original = payload@;
    let ghost goal = transformed(original, w, h, s, inverse);
    let mut scratch: Vec<u8> = vec![0u8; sample_bytes];
    let mut plane: usize = 0;
    while plane < scalar_bytes
        invariant
            delta_shape(w, h, s),
            w == width && h == height && s == scalar_bytes,
            cells == w * h,
            sample_bytes == w * h * s,
            length == sample_bytes + cells,
            payload@.len() == length,
            payload@ == original,
            original == old(payload)@,
            goal == transformed(original, w, h, s, inverse),
            scratch@.len() == sample_bytes,
            plane <= s,
            forall|p: int, y: int, x: int|
                0 <= p < plane && 0 <= y < h && 0 <= x < w ==> #[trigger] placed(
                    scratch@,
                    goal,
                    w,
                    h,
                    s,
                    inverse,
                    p,
                    y,
                    x,
                ),
        decreases scalar_bytes - plane,
    {
        let mut row: usize = 0;
        while row < height
            invariant
                delta_shape(w, h, s),
                w == width && h == height && s == scalar_bytes,
                cells == w * h,
                sample_bytes == w * h * s,
                length == sample_bytes + cells,
                payload@.len() == length,
                payload@ == original,
                original == old(payload)@,
                goal == transformed(original, w, h, s, inverse),
                scratch@.len() == sample_bytes,
                plane < s,
                row <= h,
                forall|p: int, y: int, x: int|
                    0 <= p < s && 0 <= y < h && 0 <= x < w && (p < plane || p == plane && y < row)
                        ==> #[trigger] placed(scratch@, goal, w, h, s, inverse, p, y, x),
            decreases height - row,
        {
            check_cancel(cancel)?;
            let mut previous: u8 = 0;
            let mut x: usize = 0;
            while x < width
                invariant
                    delta_shape(w, h, s),
                    w == width && h == height && s == scalar_bytes,
                    cells == w * h,
                    sample_bytes == w * h * s,
                    length == sample_bytes + cells,
                    payload@.len() == length,
                    payload@ == original,
                    goal == transformed(original, w, h, s, inverse),
                    scratch@.len() == sample_bytes,
                    plane < s,
                    row < h,
                    x <= w,
                    inverse ==> previous == total(original, w, h, row as int, plane as int, x - 1),
                    !inverse ==> previous == cell_byte(
                        original,
                        w,
                        s,
                        row as int,
                        plane as int,
                        x - 1,
                    ),
                    forall|p: int, y: int, c: int|
                        0 <= p < s && 0 <= y < h && 0 <= c < w && (p < plane || p == plane && (y
                            < row || y == row && c < x)) ==> #[trigger] placed(
                            scratch@,
                            goal,
                            w,
                            h,
                            s,
                            inverse,
                            p,
                            y,
                            c,
                        ),
                decreases width - x,
            {
                proof {
                    lemma_places(w, h, s, row as int, plane as int, x as int);
                }
                let at: usize = (row * width + x) * scalar_bytes + plane;
                let packed: usize = plane * cells + row * width + x;
                let ghost before = scratch@;
                if inverse {
                    previous = previous.wrapping_add(payload[packed]);
                    scratch.set(at, previous);
                } else {
                    let value: u8 = payload[at];
                    scratch.set(packed, value.wrapping_sub(previous));
                    previous = value;
                }
                proof {
                    assert forall|p: int, y: int, c: int|
                        0 <= p < s && 0 <= y < h && 0 <= c < w && (p < plane || p == plane && (y
                            < row || y == row && c < x + 1)) implies #[trigger] placed(
                        scratch@,
                        goal,
                        w,
                        h,
                        s,
                        inverse,
                        p,
                        y,
                        c,
                    ) by {
                        lemma_places(w, h, s, y, p, c);
                        if !(p == plane && y == row && c == x) {
                            assert(placed(before, goal, w, h, s, inverse, p, y, c));
                        }
                    }
                }
                x += 1;
            }
            row += 1;
        }
        plane += 1;
    }
    check_cancel(cancel)?;
    proof {
        assert forall|i: int| 0 <= i < sample_bytes implies scratch@[i] == goal[i] by {
            if inverse {
                lemma_cell_place(w, h, s, i);
                assert(placed(scratch@, goal, w, h, s, inverse, i % s, i / s / w, i / s % w));
            } else {
                lemma_plane_place(w, h, s, i);
                assert(placed(
                    scratch@,
                    goal,
                    w,
                    h,
                    s,
                    inverse,
                    i / (w * h),
                    i % (w * h) / w,
                    i % (w * h) % w,
                ));
            }
        }
    }
    let mut i: usize = 0;
    while i < sample_bytes
        invariant
            i <= sample_bytes,
            sample_bytes == w * h * s,
            sample_bytes <= length,
            payload@.len() == length,
            original.len() == length,
            scratch@.len() == sample_bytes,
            forall|k: int| 0 <= k < sample_bytes ==> scratch@[k] == goal[k],
            forall|k: int| 0 <= k < i ==> payload@[k] == goal[k],
            forall|k: int| i <= k < length ==> payload@[k] == original[k],
        decreases sample_bytes - i,
    {
        payload[i] = scratch[i];
        i += 1;
    }
    assert(payload@ =~= goal);
    Ok(sample_bytes)
}

/// The byte of a plane, a row and a column stands in its place after the transform.
spec fn placed(
    scratch: Seq<u8>,
    goal: Seq<u8>,
    w: int,
    h: int,
    s: int,
    inverse: bool,
    plane: int,
    row: int,
    x: int,
) -> bool {
    let i = if inverse {
        (row * w + x) * s + plane
    } else {
        plane * (w * h) + row * w + x
    };
    scratch[i] == goal[i]
}

/// The sample of a cell that a band holds: as it stands, or, where the band was transformed,
/// as the inverse transform gives it.
pub open spec fn plain(band: Seq<u8>, w: int, h: int, s: int, predicted: bool) -> Seq<u8> {
    if predicted {
        transformed(band, w, h, s, true)
    } else {
        band
    }
}

proof fn lemma_running_is_total(
    packed: Seq<u8>,
    band: Seq<u8>,
    member: int,
    count: int,
    w: int,
    h: int,
    s: int,
    row: int,
    plane: int,
    x: int,
)
    requires
        delta_shape(w, h, s),
        holds(packed, band, member, count, w, h, s, true),
        0 <= row < h,
        0 <= plane < s,
        -1 <= x < w,
    ensures
        running(packed, member, count, (row * s + plane) * w, x) == total(
            band,
            w,
            h,
            row,
            plane,
            x,
        ),
    decreases x + 1,
{
    if x >= 0 {
        lemma_running_is_total(packed, band, member, count, w, h, s, row, plane, x - 1);
        lemma_lane_position(w, h, s, row, plane, x);
        assert(w * h * s <= w * h * (s + 1)) by (nonlinear_arith)
            requires
                0 < w,
                0 < h,
        ;
        let q = (row * s + plane) * w + x;
        assert(lane(packed, member, count, q) == band[band_index(true, w, h, s, q)]);
    }
}

/// Restoring a window straight from a packet gives the bytes that extracting the band and
/// undoing its prediction gives.
pub proof fn fused_restore_agrees_with_extraction(
    packed: Seq<u8>,
    band: Seq<u8>,
    member: int,
    count: int,
    w: int,
    h: int,
    s: int,
    predicted: bool,
    row: int,
    plane: int,
    x: int,
)
    requires
        admitted(w, h, s, count),
        band.len() == band_bytes(w, h, s),
        holds(packed, band, member, count, w, h, s, predicted),
        0 <= row < h,
        0 <= plane < s,
        0 <= x < w,
    ensures
        sample(packed, member, count, w, s, predicted, row, plane, x) == plain(
            band,
            w,
            h,
            s,
            predicted,
        )[(row * w + x) * s + plane],
        mask(packed, member, count, w, h, s, row, x) == plain(band, w, h, s, predicted)[w * h * s
            + row * w + x],
{
    lemma_places(w, h, s, row, plane, x);
    lemma_lane_position(w, h, s, row, plane, x);
    assert(w * h * s + w * h == w * h * (s + 1)) by (nonlinear_arith);
    if predicted {
        lemma_running_is_total(packed, band, member, count, w, h, s, row, plane, x);
    } else {
        let q = (row * s + plane) * w + x;
        assert(lane(packed, member, count, q) == band[band_index(false, w, h, s, q)]);
    }
    let m = w * h * s + row * w + x;
    assert(lane(packed, member, count, m) == band[band_index(predicted, w, h, s, m)]);
}

} // verus!
