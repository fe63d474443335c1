//! Normalized SKV output construction. Raw typed access remains separate.
//!
//! Arithmetic on samples is the caller's: a function takes the little-endian bits of a raw
//! sample and its mask byte to a value and whether it is valid.
use vstd::prelude::*;

use crate::bytes::{le, le_at};
use crate::cancel::{check_cancel, ended, Cancel};
use crate::error::Error;
use crate::index::{lemma_row_major, lemma_row_of};
use crate::skv_group::{
    admitted, band_bytes, lemma_group_bound, lemma_reached_cell, lemma_restore_count,
    lemma_row_bytes, lemma_scalar_bounds, lemma_target_cell, mask, row_prefix, running, sample,
    shape, shape_of, CopyRegion,
};
use crate::source::{Band, RawBandMetadata};

verus! {

/// The normalizer takes every raw sample.
pub open spec fn total<V, F: Fn(u64, u8) -> (V, bool)>(normalize: F) -> bool {
    forall|bits: u64, mask: u8| #[trigger] call_requires(normalize, (bits, mask))
}

/// The bits of sample `i` in a row of samples of `scalar` bytes.
pub open spec fn row_bits(samples: Seq<u8>, scalar: int, i: int) -> u64 {
    le(samples.subrange(i * scalar, i * scalar + scalar)) as u64
}

/// `value` and `ok` are what the normalizer gives for sample `i` of a row.
pub open spec fn normalized<V, F: Fn(u64, u8) -> (V, bool)>(
    normalize: F,
    samples: Seq<u8>,
    masks: Seq<u8>,
    scalar: int,
    i: int,
    value: V,
    ok: bool,
) -> bool {
    call_ensures(normalize, (row_bits(samples, scalar, i), masks[i]), (value, ok))
}

/// Normalize one row of at most 256 raw samples into `values[at..]` and `valid[at..]`.
pub fn normalize_row<V, F: Fn(u64, u8) -> (V, bool), C: Cancel>(
    samples: &[u8],
    masks: &[u8],
    info: &RawBandMetadata,
    values: &mut Vec<V>,
    valid: &mut Vec<bool>,
    at: usize,
    normalize: &F,
    cancel: &C,
) -> (r: Result<(), Error>)
    requires
        total::<V, F>(*normalize),
    ensures
        final(values)@.len() == old(values)@.len(),
        final(valid)@.len() == old(valid)@.len(),
        cancel.always() ==> final(values)@ == old(values)@ && final(valid)@ == old(valid)@,
        if masks@.len() > 256 || samples@.len() != masks@.len() * info.scalar_type.width() || at
            + masks@.len() > old(values)@.len() || at + masks@.len() > old(valid)@.len() {
            &&& ended(cancel, r, r == Err::<(), Error>(Error::NativeRowShape))
            &&& final(values)@ == old(values)@
            &&& final(valid)@ == old(valid)@
        } else {
            &&& ended(cancel, r, r is Ok)
            &&& forall|k: int|
                #![trigger final(values)@[k]]
                0 <= k < old(values)@.len() && !(at <= k < at + masks@.len()) ==> final(values)@[k]
                    == old(values)@[k]
            &&& forall|k: int|
                #![trigger final(valid)@[k]]
                0 <= k < old(valid)@.len() && !(at <= k < at + masks@.len()) ==> final(valid)@[k]
                    == old(valid)@[k]
            &&& (forall|i: int|
                #![trigger final(values)@[at + i]]
                0 <= i < masks@.len() ==> normalized(
                    *normalize,
                    samples@,
                    masks@,
                    info.scalar_type.width(),
                    i,
                    final(values)@[at + i],
                    final(valid)@[at + i],
                )) || (r is Err && final(values)@ == old(values)@ && final(valid)@ == old(valid)@)
        },
{
    check_cancel(cancel)?;
    let width: usize = info.scalar_type.byte_width();
    let n: usize = masks.len();
    if n > 256 || samples.len() != n * width || at > values.len() || n > values.len() - at || at
        > valid.len() || n > valid.len() - at {
        return Err(Error::NativeRowShape);
    }
    let ghost before_values = values@;
    let ghost before_valid = valid@;
    let ghost w = width as int;
    let limit: usize = values.len();
    let mut i: usize = 0;
    while i < n
        invariant
            i <= n <= 256,
            n == masks@.len(),
            w == width,
            width == info.scalar_type.width(),
            samples@.len() == n * w,
            limit == values@.len(),
            at + n <= limit,
            at + n <= valid@.len(),
            values@.len() == before_values.len(),
            valid@.len() == before_valid.len(),
            total::<V, F>(*normalize),
            forall|k: int|
                0 <= k < before_values.len() && !(at <= k < at + i) ==> #[trigger] values@[k]
                    == before_values[k],
            forall|k: int|
                0 <= k < before_valid.len() && !(at <= k < at + i) ==> #[trigger] valid@[k]
                    == before_valid[k],
            forall|j: int|
                #![trigger values@[at + j]]
                0 <= j < i ==> normalized(
                    *normalize,
                    samples@,
                    masks@,
                    w,
                    j,
                    values@[at + j],
                    valid@[at + j],
                ),
        decreases n - i,
    {
        proof {
            lemma_row_major(i as int, w - 1, w, n as int);
            assert(0 <= i * w) by (nonlinear_arith)
                requires
                    0 <= i,
                    0 < w,
            ;
            assert(i * w <= 256 * 8) by (nonlinear_arith)
                requires
                    0 <= i <= 256,
                    0 < w <= 8,
            ;
        }
        let bits: u64 = le_at(samples, i * width, width);
        let (value, ok) = normalize(bits, masks[i]);
        values.set(at + i, value);
        valid.set(at + i, ok);
        i += 1;
    }
    check_cancel(cancel)
}

/// The bits of the sample of a tile at a row and a column.
pub open spec fn tile_bits(
    packed: Seq<u8>,
    member: int,
    count: int,
    width: int,
    scalar: int,
    predicted: bool,
    row: int,
    x: int,
) -> u64 {
    le(
        Seq::new(
            scalar as nat,
            |plane: int| sample(packed, member, count, width, scalar, predicted, row, plane, x),
        ),
    ) as u64
}

/// Why a native restore of `region` is refused, if it is.
pub open spec fn native_refusal(
    packed: int,
    member: int,
    count: int,
    width: int,
    height: int,
    scalar: int,
    region: CopyRegion,
    values: int,
    valid: int,
) -> Option<Error> {
    match shape_of(width, height, scalar, count) {
        Err(e) => Some(e),
        Ok((_, bytes)) => if !(member < count && packed == bytes * count && region.source_ok(
            width,
            height,
        )) {
            Some(Error::GroupRestoreRegion)
        } else if region.cells() > usize::MAX {
            Some(Error::GroupRestoreOutputOverflow)
        } else if !(region.target_ok() && region.cells() == values && region.cells() == valid) {
            Some(Error::GroupRestoreDestination)
        } else {
            None
        },
    }
}

/// `value` and `ok` are what the normalizer gives for output cell `k`.
pub open spec fn native_cell<V, F: Fn(u64, u8) -> (V, bool)>(
    normalize: F,
    packed: Seq<u8>,
    member: int,
    count: int,
    width: int,
    height: int,
    scalar: int,
    predicted: bool,
    region: CopyRegion,
    k: int,
    value: V,
    ok: bool,
) -> bool {
    call_ensures(
        normalize,
        (
            tile_bits(
                packed,
                member,
                count,
                width,
                scalar,
                predicted,
                region.row(k),
                region.column(k),
            ),
            mask(packed, member, count, width, height, scalar, region.row(k), region.column(k)),
        ),
        (value, ok),
    )
}

/// `output` is `original` with the normalized window written into it: the rows before `y`,
/// and of the others perhaps some.
spec fn native_so_far<V, F: Fn(u64, u8) -> (V, bool)>(
    normalize: F,
    packed: Seq<u8>,
    member: int,
    count: int,
    width: int,
    height: int,
    scalar: int,
    predicted: bool,
    region: CopyRegion,
    original: Band<V>,
    output: Band<V>,
    y: int,
) -> bool {
    &&& output.values@.len() == original.values@.len()
    &&& output.valid@.len() == original.valid@.len()
    &&& output.unit == original.unit
    &&& forall|k: int|
        #![trigger output.values@[k]]
        0 <= k < output.values@.len() ==> {
            ||| !(region.reaches(k) && region.row(k) < y) && output.values@[k]
                == original.values@[k] && output.valid@[k] == original.valid@[k]
            ||| region.reaches(k) && native_cell(
                normalize,
                packed,
                member,
                count,
                width,
                height,
                scalar,
                predicted,
                region,
                k,
                output.values@[k],
                output.valid@[k],
            )
        }
}

/// `output` is `original` with the normalized window written into it: all of it, or, where
/// the work was stopped, perhaps only a part.
pub open spec fn native_restored<V, F: Fn(u64, u8) -> (V, bool)>(
    normalize: F,
    packed: Seq<u8>,
    member: int,
    count: int,
    width: int,
    height: int,
    scalar: int,
    predicted: bool,
    region: CopyRegion,
    original: Band<V>,
    output: Band<V>,
    whole: bool,
) -> bool {
    &&& output.values@.len() == original.values@.len()
    &&& output.valid@.len() == original.valid@.len()
    &&& output.unit == original.unit
    &&& forall|k: int|
        #![trigger output.values@[k]]
        0 <= k < output.values@.len() ==> {
            ||| !(whole && region.reaches(k)) && output.values@[k] == original.values@[k]
                && output.valid@[k] == original.valid@[k]
            ||| region.reaches(k) && native_cell(
                normalize,
                packed,
                member,
                count,
                width,
                height,
                scalar,
                predicted,
                region,
                k,
                output.values@[k],
                output.valid@[k],
            )
        }
}

/// Sample bytes of a tile row that stand before a plane and a column hold the restored row.
spec fn row_so_far(
    packed: Seq<u8>,
    member: int,
    count: int,
    width: int,
    scalar: int,
    predicted: bool,
    row: int,
    x0: int,
    samples: Seq<u8>,
    plane: int,
    x: int,
) -> bool {
    forall|j: int|
        #![trigger samples[j]]
        0 <= j < samples.len() && (j % scalar < plane || j % scalar == plane && x0 + j / scalar < x)
            ==> samples[j] == sample(
            packed,
            member,
            count,
            width,
            scalar,
            predicted,
            row,
            j % scalar,
            x0 + j / scalar,
        )
}

proof fn lemma_row_complete(
    packed: Seq<u8>,
    member: int,
    count: int,
    width: int,
    scalar: int,
    predicted: bool,
    row: int,
    x0: int,
    samples: Seq<u8>,
    columns: int,
    i: int,
)
    requires
        scalar > 0,
        samples.len() == columns * scalar,
        0 <= i < columns,
        row_so_far(packed, member, count, width, scalar, predicted, row, x0, samples, scalar, x0),
    ensures
        row_bits(samples, scalar, i) == tile_bits(
            packed,
            member,
            count,
            width,
            scalar,
            predicted,
            row,
            x0 + i,
        ),
{
    lemma_row_major(i, scalar - 1, scalar, columns);
    assert(0 <= i * scalar) by (nonlinear_arith)
        requires
            0 <= i,
            0 < scalar,
    ;
    let bytes = Seq::new(
        scalar as nat,
        |plane: int| sample(packed, member, count, width, scalar, predicted, row, plane, x0 + i),
    );
    assert forall|p: int| 0 <= p < scalar implies samples.subrange(
        i * scalar,
        i * scalar + scalar,
    )[p] == bytes[p] by {
        lemma_row_major(i, p, scalar, columns);
        assert(samples[i * scalar + p] == bytes[p]);
    }
    assert(samples.subrange(i * scalar, i * scalar + scalar) =~= bytes);
}

/// Restore one plane of a tile row into its place in `samples`.
fn restore_plane(
    packed: &[u8],
    member: usize,
    count: usize,
    width: usize,
    scalar: usize,
    predicted: bool,
    y: usize,
    plane: usize,
    x0: usize,
    x1: usize,
    samples: &mut Vec<u8>,
    Ghost(h): Ghost<int>,
)
    requires
        admitted(width as int, h, scalar as int, count as int),
        packed@.len() == band_bytes(width as int, h, scalar as int) * count,
        member < count,
        y < h,
        plane < scalar,
        x0 < x1 <= width,
        old(samples)@.len() == (x1 - x0) * scalar,
        row_so_far(
            packed@,
            member as int,
            count as int,
            width as int,
            scalar as int,
            predicted,
            y as int,
            x0 as int,
            old(samples)@,
            plane as int,
            x0 as int,
        ),
    ensures
        final(samples)@.len() == old(samples)@.len(),
        row_so_far(
            packed@,
            member as int,
            count as int,
            width as int,
            scalar as int,
            predicted,
            y as int,
            x0 as int,
            final(samples)@,
            plane + 1,
            x0 as int,
        ),
{
    let ghost w = width as int;
    let ghost s = scalar as int;
    let ghost n = count as int;
    let ghost who = member as int;
    proof {
        lemma_row_bytes(w, h, s, n, who, y as int, plane as int, 0);
        lemma_scalar_bounds(w, h, s, y as int, plane as int, 0);
        lemma_group_bound(w, h, s, n);
        assert(row_so_far(packed@, who, n, w, s, predicted, y as int, x0 as int, samples@, plane as int, x0 as int));
    }
    let input: usize = (y * scalar + plane) * width * count + member;
    let mut previous: u8 = 0;
    if predicted {
        // Masked and unselected prefix cells still contribute to the
        // inverse predictor. Never normalize or skip their raw bits.
        previous = row_prefix(
            packed,
            input,
            count,
            x0,
            Ghost(w),
            Ghost(h),
            Ghost(s),
            Ghost(who),
            Ghost(y as int),
            Ghost(plane as int),
        );
    }
    let mut x: usize = x0;
    while x < x1
        invariant
            admitted(w, h, s, n),
            w == width && s == scalar && n == count && who == member,
            who < n,
            packed@.len() == band_bytes(w, h, s) * n,
            0 <= y < h,
            plane < s,
            x0 <= x <= x1 <= w,
            x0 < x1,
            samples@.len() == (x1 - x0) * s,
            input == (y * s + plane) * w * n + who,
            predicted ==> previous == running(packed@, who, n, (y * s + plane) * w, x - 1),
            row_so_far(
                packed@,
                who,
                n,
                w,
                s,
                predicted,
                y as int,
                x0 as int,
                samples@,
                plane as int,
                x as int,
            ),
        decreases x1 - x,
    {
        proof {
            lemma_row_bytes(w, h, s, n, who, y as int, plane as int, x as int);
            lemma_row_major(x - x0, plane as int, s, x1 - x0);
            assert(0 <= (x - x0) * s <= 256 * 8) by (nonlinear_arith)
                requires
                    0 <= x - x0 <= 256,
                    0 < s <= 8,
            ;
        }
        let byte: u8 = packed[input + x * count];
        if predicted {
            previous = previous.wrapping_add(byte);
        } else {
            previous = byte;
        }
        let ghost before = samples@;
        let at: usize = (x - x0) * scalar + plane;
        samples.set(at, previous);
        proof {
            assert forall|j: int|
                #![trigger samples@[j]]
                0 <= j < samples@.len() && (j % s < plane || j % s == plane && x0 + j / s < x + 1)
                    implies samples@[j] == sample(
                packed@,
                who,
                n,
                w,
                s,
                predicted,
                y as int,
                j % s,
                x0 + j / s,
            ) by {
                lemma_row_of(j, s, x1 - x0);
                if j != at {
                    assert(samples@[j] == before[j]);
                }
            }
        }
        x += 1;
    }
    proof {
        assert forall|j: int|
            #![trigger samples@[j]]
            0 <= j < samples@.len() && (j % s < plane + 1 || j % s == plane + 1 && x0 + j / s < x0)
                implies samples@[j] == sample(
            packed@,
            who,
            n,
            w,
            s,
            predicted,
            y as int,
            j % s,
            x0 + j / s,
        ) by {
            lemma_row_of(j, s, x1 - x0);
        }
    }
}

/// Restore one selected member row into bounded scratch, then normalize into
/// the caller's final native window. The predictor prefix remains bytewise.
/// Neither a complete raw band nor a complete normalized temporary is created.
/// The returned count includes sample and mask writes into these row buffers.
pub fn restore_member_native_window<V, F: Fn(u64, u8) -> (V, bool), C: Cancel>(
    packed: &[u8],
    member: usize,
    count: usize,
    width: usize,
    height: usize,
    info: &RawBandMetadata,
    predicted: bool,
    region: CopyRegion,
    output: &mut Band<V>,
    normalize: &F,
    cancel: &C,
) -> (r: Result<usize, Error>)
    requires
        total::<V, F>(*normalize),
    ensures
        match native_refusal(
            packed@.len() as int,
            member as int,
            count as int,
            width as int,
            height as int,
            info.scalar_type.width(),
            region,
            old(output).values@.len() as int,
            old(output).valid@.len() as int,
        ) {
            Some(e) => *final(output) == *old(output) && ended(
                cancel,
                r,
                r == Err::<usize, Error>(e),
            ),
            None => {
                &&& ended(
                    cancel,
                    r,
                    r matches Ok(n) && n == region.columns() * region.rows() * (
                    info.scalar_type.width() + 1),
                )
                &&& native_restored(
                    *normalize,
                    packed@,
                    member as int,
                    count as int,
                    width as int,
                    height as int,
                    info.scalar_type.width(),
                    predicted,
                    region,
                    *old(output),
                    *final(output),
                    r is Ok,
                )
                &&& cancel.always() ==> *final(output) == *old(output)
            },
        },
{
    check_cancel(cancel)?;
    let scalar: usize = info.scalar_type.byte_width();
    let (cells, bytes) = match shape(width, height, scalar, count) {
        Ok(v) => v,
        Err(e) => return Err(e),
    };
    let x0: usize = region.source[0];
    let y0: usize = region.source[1];
    let x1: usize = region.source[2];
    let y1: usize = region.source[3];
    let tx: usize = region.target[0];
    let ty: usize = region.target[1];
    let ow: usize = region.output_shape[0];
    let oh: usize = region.output_shape[1];
    if !(member < count && packed.len() == bytes * count && x0 < x1 && x1 <= width && y0 < y1 && y1
        <= height) {
        return Err(Error::GroupRestoreRegion);
    }
    let output_cells: usize = match ow.checked_mul(oh) {
        Some(n) => n,
        None => return Err(Error::GroupRestoreOutputOverflow),
    };
    if !(ow > 0 && oh > 0 && output_cells == output.values.len() && output_cells
        == output.valid.len() && x1 - x0 <= ow && tx <= ow - (x1 - x0) && y1 - y0 <= oh && ty <= oh
        - (y1 - y0)) {
        return Err(Error::GroupRestoreDestination);
    }
    let ghost w = width as int;
    let ghost h = height as int;
    let ghost s = scalar as int;
    let ghost n = count as int;
    let ghost who = member as int;
    let ghost original = *output;
    let columns: usize = x1 - x0;
    proof {
        lemma_row_bytes(w, h, s, n, who, 0, 0, 0);
        lemma_group_bound(w, h, s, n);
        lemma_restore_count(region.columns(), region.rows(), s);
        assert(w * h * s * n <= band_bytes(w, h, s) * n) by (nonlinear_arith)
            requires
                band_bytes(w, h, s) == w * h * (s + 1),
                w * h > 0,
                n > 0,
        ;
        assert(columns * s <= 256 * 8) by (nonlinear_arith)
            requires
                0 <= columns <= 256,
                0 < s <= 8,
        ;
    }
    let group_samples: usize = cells * scalar * count;
    let mut samples: Vec<u8> = vec![0u8; columns * scalar];
    let mut masks: Vec<u8> = vec![0u8; columns];
    let mut y: usize = y0;
    while y < y1
        invariant
            admitted(w, h, s, n),
            w == width && h == height && s == scalar && n == count && who == member,
            s == info.scalar_type.width(),
            group_samples == w * h * s * n,
            who < n,
            packed@.len() == band_bytes(w, h, s) * n,
            x0 == region.source[0] && y0 == region.source[1] && x1 == region.source[2] && y1
                == region.source[3] && tx == region.target[0] && ty == region.target[1] && ow
                == region.output_shape[0] && oh == region.output_shape[1],
            columns == x1 - x0,
            region.source_ok(w, h),
            region.target_ok(),
            region.cells() == output_cells,
            samples@.len() == columns * s,
            masks@.len() == columns,
            output.values@.len() == output_cells,
            output.valid@.len() == output_cells,
            original.values@.len() == output_cells,
            original.valid@.len() == output_cells,
            y0 <= y <= y1,
            original == *old(output),
            total::<V, F>(*normalize),
            native_so_far(
                *normalize,
                packed@,
                who,
                n,
                w,
                h,
                s,
                predicted,
                region,
                original,
                *output,
                y as int,
            ),
            native_refusal(
                packed@.len() as int,
                who,
                n,
                w,
                h,
                s,
                region,
                original.values@.len() as int,
                original.valid@.len() as int,
            ) is None,
            !cancel.always(),
        decreases y1 - y,
    {
        check_cancel(cancel)?;
        let mut plane: usize = 0;
        assert(row_so_far(
            packed@,
            who,
            n,
            w,
            s,
            predicted,
            y as int,
            x0 as int,
            samples@,
            0,
            x0 as int,
        )) by {
            assert forall|j: int| 0 <= j < samples@.len() implies #[trigger] (j % s) >= 0 && j / s
                >= 0 by {
                lemma_row_of(j, s, columns as int);
            }
        }
        while plane < scalar
            invariant
                admitted(w, h, s, n),
                w == width && h == height && s == scalar && n == count && who == member,
                who < n,
                packed@.len() == band_bytes(w, h, s) * n,
                x0 < x1 <= w,
                columns == x1 - x0,
                samples@.len() == columns * s,
                y < h,
                plane <= s,
                row_so_far(
                    packed@,
                    who,
                    n,
                    w,
                    s,
                    predicted,
                    y as int,
                    x0 as int,
                    samples@,
                    plane as int,
                    x0 as int,
                ),
            decreases scalar - plane,
        {
            restore_plane(
                packed,
                member,
                count,
                width,
                scalar,
                predicted,
                y,
                plane,
                x0,
                x1,
                &mut samples,
                Ghost(h),
            );
            plane += 1;
        }
        let mut x: usize = x0;
        while x < x1
            invariant
                admitted(w, h, s, n),
                w == width && h == height && s == scalar && n == count && who == member,
                group_samples == w * h * s * n,
                who < n,
                packed@.len() == band_bytes(w, h, s) * n,
                columns == x1 - x0,
                masks@.len() == columns,
                y < h,
                x0 <= x <= x1 <= w,
                forall|i: int|
                    0 <= i < x - x0 ==> #[trigger] masks@[i] == mask(
                        packed@,
                        who,
                        n,
                        w,
                        h,
                        s,
                        y as int,
                        x0 + i,
                    ),
            decreases x1 - x,
        {
            proof {
                lemma_row_bytes(w, h, s, n, who, y as int, 0, x as int);
                lemma_scalar_bounds(w, h, s, y as int, 0, x as int);
            }
            masks.set(x - x0, packed[group_samples + (y * width + x) * count + member]);
            x += 1;
        }
        proof {
            lemma_target_cell(region, w, h, y as int, x0 as int);
            lemma_target_cell(region, w, h, y as int, x1 - 1);
        }
        let target: usize = (ty + (y - y0)) * ow + tx;
        let ghost before = *output;
        let done = normalize_row(
            samples.as_slice(),
            masks.as_slice(),
            info,
            &mut output.values,
            &mut output.valid,
            target,
            normalize,
            cancel,
        );
        proof {
            assert forall|k: int|
                #![trigger output.values@[k]]
                0 <= k < output.values@.len() implies {
                ||| !(region.reaches(k) && region.row(k) < (if done is Ok {
                    y + 1
                } else {
                    y as int
                })) && output.values@[k] == original.values@[k] && output.valid@[k]
                    == original.valid@[k]
                ||| region.reaches(k) && native_cell(
                    *normalize,
                    packed@,
                    who,
                    n,
                    w,
                    h,
                    s,
                    predicted,
                    region,
                    k,
                    output.values@[k],
                    output.valid@[k],
                )
            } by {
                let value = before.values@[k];
                lemma_reached_cell(region, k);
                if region.reaches(k) && region.row(k) == y {
                    let i = region.column(k) - x0;
                    assert(k == target + i);
                    lemma_row_complete(
                        packed@,
                        who,
                        n,
                        w,
                        s,
                        predicted,
                        y as int,
                        x0 as int,
                        samples@,
                        columns as int,
                        i,
                    );
                    assert(output.values@[target + i] == output.values@[k]);
                } else {
                    if target <= k < target + columns {
                        lemma_target_cell(region, w, h, y as int, x0 + k - target);
                    }
                }
            }
        }
        match done {
            Ok(()) => {},
            Err(e) => return Err(e),
        }
        y += 1;
    }
    check_cancel(cancel)?;
    Ok(columns * (y1 - y0) * (scalar + 1))
}

} // verus!
