//! Exact byte packing for the optional grouped-row SKV representation.
//!
//! A group holds `count` bands of one tile. Each band is `width * height * scalar` sample
//! bytes and then one mask byte for each cell. In the packet the bytes of one band form a
//! lane: byte `q` of the lane of `member` stands at `q * count + member`. A lane runs row by
//! row, in a row plane by plane, in a plane column by column, and then through the masks.
use vstd::prelude::*;
use vstd::slice::slice_to_vec;

use crate::cancel::{check_cancel, ended, Cancel};
use crate::codec::{decoded, decoding_undoes_encoding, zlib_encode, zlib_of};
use crate::error::Error;
use crate::index::{lemma_distinct, lemma_row_major, lemma_row_of};
use crate::source::RawBandWindow;

verus! {

/// Enough for 128x128x40 F32 samples and masks, while two packet buffers and
/// the existing per-band inverse remain within the fixed 8 MiB scratch reserve.
pub const MAX_BYTES: usize = 3_276_800;

/// The dimensions that a group may have, whatever its size.
pub open spec fn shaped(width: int, height: int, scalar: int, count: int) -> bool {
    &&& 1 <= width <= 256
    &&& 1 <= height <= 256
    &&& scalar == 1 || scalar == 2 || scalar == 4 || scalar == 8
    &&& 1 <= count <= 64
}

/// Bytes of one band: samples and masks.
pub open spec fn band_bytes(width: int, height: int, scalar: int) -> int {
    width * height * (scalar + 1)
}

/// A group that the packet bound admits.
pub open spec fn admitted(width: int, height: int, scalar: int, count: int) -> bool {
    shaped(width, height, scalar, count) && band_bytes(width, height, scalar) * count <= MAX_BYTES
}

/// What [`shape`] answers.
pub open spec fn shape_of(width: int, height: int, scalar: int, count: int) -> Result<
    (int, int),
    Error,
> {
    if !shaped(width, height, scalar, count) {
        Err(Error::GroupShape)
    } else if band_bytes(width, height, scalar) * count > MAX_BYTES {
        Err(Error::GroupBound)
    } else {
        Ok((width * height, band_bytes(width, height, scalar)))
    }
}

/// Cells of a tile and bytes of each band of the group.
pub fn shape(width: usize, height: usize, scalar: usize, count: usize) -> (r: Result<
    (usize, usize),
    Error,
>)
    ensures
        match (r, shape_of(width as int, height as int, scalar as int, count as int)) {
            (Ok(a), Ok(b)) => a.0 == b.0 && a.1 == b.1,
            (Err(a), Err(b)) => a == b,
            _ => false,
        },
{
    if !(1 <= width && width <= 256 && 1 <= height && height <= 256 && (scalar == 1 || scalar == 2
        || scalar == 4 || scalar == 8) && 1 <= count && count <= 64) {
        return Err(Error::GroupShape);
    }
    assert(width * height <= 256 * 256) by (nonlinear_arith)
        requires
            width <= 256,
            height <= 256,
    ;
    let cells: usize = width * height;
    assert(cells * (scalar + 1) <= 256 * 256 * 9) by (nonlinear_arith)
        requires
            0 <= cells <= 256 * 256,
            scalar <= 8,
    ;
    let band: usize = cells * (scalar + 1);
    assert(band * count <= 256 * 256 * 9 * 64) by (nonlinear_arith)
        requires
            0 <= band <= 256 * 256 * 9,
            count <= 64,
    ;
    if band * count > MAX_BYTES {
        return Err(Error::GroupBound);
    }
    Ok((cells, band))
}

/// Where byte `q` of a lane stands in its band. Samples stand plane after plane, or cell
/// after cell; masks follow them either way.
pub open spec fn band_index(planes: bool, width: int, height: int, scalar: int, q: int) -> int {
    let cells = width * height;
    if q < cells * scalar {
        let row = q / width / scalar;
        let plane = q / width % scalar;
        let cell = row * width + q % width;
        if planes {
            plane * cells + cell
        } else {
            cell * scalar + plane
        }
    } else {
        q
    }
}

/// Where byte `i` of a band stands in its lane.
pub open spec fn lane_index(planes: bool, width: int, height: int, scalar: int, i: int) -> int {
    let cells = width * height;
    if i < cells * scalar {
        let cell = if planes {
            i % cells
        } else {
            i / scalar
        };
        let plane = if planes {
            i / cells
        } else {
            i % scalar
        };
        (cell / width * scalar + plane) * width + cell % width
    } else {
        i
    }
}

/// Byte `q` of the lane of `member`.
pub open spec fn lane(packed: Seq<u8>, member: int, count: int, q: int) -> u8 {
    packed[q * count + member]
}

/// The lane of `member` holds `band`.
pub open spec fn holds(
    packed: Seq<u8>,
    band: Seq<u8>,
    member: int,
    count: int,
    width: int,
    height: int,
    scalar: int,
    planes: bool,
) -> bool {
    forall|q: int|
        #![trigger lane(packed, member, count, q)]
        0 <= q < band_bytes(width, height, scalar) ==> lane(packed, member, count, q)
            == band[band_index(planes, width, height, scalar, q)]
}

/// The lane position of the byte at a row, a plane and a column.
pub proof fn lemma_lane_position(
    width: int,
    height: int,
    scalar: int,
    row: int,
    plane: int,
    x: int,
)
    requires
        0 <= row < height,
        0 <= plane < scalar,
        0 <= x < width,
    ensures
        0 <= (row * scalar + plane) * width + x < width * height * scalar,
        ((row * scalar + plane) * width + x) % width == x,
        ((row * scalar + plane) * width + x) / width / scalar == row,
        ((row * scalar + plane) * width + x) / width % scalar == plane,
        0 <= row * width + x < width * height,
        (row * width + x) / width == row,
        (row * width + x) % width == x,
{
    lemma_row_major(row, plane, scalar, height);
    lemma_row_major(row * scalar + plane, x, width, height * scalar);
    lemma_row_major(row, x, width, height);
    assert(height * scalar * width == width * height * scalar) by (nonlinear_arith);
    assert(height * width == width * height) by (nonlinear_arith);
}

/// A lane is a permutation of its band: [`lane_index`] and [`band_index`] undo each other,
/// both within the band's bytes.
pub proof fn lane_order_is_a_permutation(
    planes: bool,
    width: int,
    height: int,
    scalar: int,
    q: int,
)
    requires
        width > 0,
        height > 0,
        scalar > 0,
        0 <= q < band_bytes(width, height, scalar),
    ensures
        0 <= band_index(planes, width, height, scalar, q) < band_bytes(width, height, scalar),
        lane_index(planes, width, height, scalar, band_index(planes, width, height, scalar, q))
            == q,
        0 <= lane_index(planes, width, height, scalar, q) < band_bytes(width, height, scalar),
        band_index(planes, width, height, scalar, lane_index(planes, width, height, scalar, q))
            == q,
{
    let cells = width * height;
    assert(cells > 0) by (nonlinear_arith)
        requires
            cells == width * height,
            width > 0,
            height > 0,
    ;
    assert(cells * (scalar + 1) == cells * scalar + cells) by (nonlinear_arith);
    if q < cells * scalar {
        assert(cells * scalar == height * scalar * width) by (nonlinear_arith)
            requires
                cells == width * height,
        ;
        assert(cells == height * width) by (nonlinear_arith)
            requires
                cells == width * height,
        ;
        assert(cells * scalar == scalar * cells) by (nonlinear_arith);
        // From the lane to the band and back.
        lemma_row_of(q, width, height * scalar);
        lemma_row_of(q / width, scalar, height);
        let row = q / width / scalar;
        let plane = q / width % scalar;
        let x = q % width;
        lemma_lane_position(width, height, scalar, row, plane, x);
        let cell = row * width + x;
        lemma_row_major(plane, cell, cells, scalar);
        lemma_row_major(cell, plane, scalar, cells);
        // From the band to the lane and back.
        lemma_row_of(q, cells, scalar);
        lemma_row_of(q, scalar, cells);
        let cell2 = if planes {
            q % cells
        } else {
            q / scalar
        };
        let plane2 = if planes {
            q / cells
        } else {
            q % scalar
        };
        lemma_row_of(cell2, width, height);
        lemma_lane_position(width, height, scalar, cell2 / width, plane2, cell2 % width);
        lemma_row_major(plane2, cell2, cells, scalar);
        lemma_row_major(cell2, plane2, scalar, cells);
    }
}

/// A lane holds one band only: what [`insert`] wrote is what [`extract`] gives back.
pub proof fn a_lane_holds_one_band(
    packed: Seq<u8>,
    a: Seq<u8>,
    b: Seq<u8>,
    member: int,
    count: int,
    width: int,
    height: int,
    scalar: int,
    planes: bool,
)
    requires
        width > 0,
        height > 0,
        scalar > 0,
        a.len() == band_bytes(width, height, scalar),
        b.len() == a.len(),
        holds(packed, a, member, count, width, height, scalar, planes),
        holds(packed, b, member, count, width, height, scalar, planes),
    ensures
        a == b,
{
    assert forall|i: int| 0 <= i < a.len() implies a[i] == b[i] by {
        lane_order_is_a_permutation(planes, width, height, scalar, i);
        let q = lane_index(planes, width, height, scalar, i);
        assert(lane(packed, member, count, q) == a[i]);
        assert(lane(packed, member, count, q) == b[i]);
    }
    assert(a =~= b);
}

/// Lanes other than that of `member` are the same in `a` and `b`.
pub open spec fn other_lanes_kept(a: Seq<u8>, b: Seq<u8>, member: int, count: int) -> bool {
    &&& a.len() == b.len()
    &&& forall|k: int| 0 <= k < a.len() && k % count != member ==> a[k] == b[k]
}

/// The first `q` sample bytes and the first `m` masks of a lane hold their band.
spec fn filled(
    packed: Seq<u8>,
    band: Seq<u8>,
    member: int,
    count: int,
    width: int,
    height: int,
    scalar: int,
    planes: bool,
    q: int,
    m: int,
) -> bool {
    &&& forall|p: int|
        #![trigger lane(packed, member, count, p)]
        0 <= p < q ==> lane(packed, member, count, p) == band[band_index(
            planes,
            width,
            height,
            scalar,
            p,
        )]
    &&& forall|p: int|
        #![trigger lane(packed, member, count, p)]
        width * height * scalar <= p < width * height * scalar + m ==> lane(
            packed,
            member,
            count,
            p,
        ) == band[p]
}

proof fn lemma_lane_write(
    before: Seq<u8>,
    after: Seq<u8>,
    original: Seq<u8>,
    member: int,
    count: int,
    lanes: int,
    q: int,
    value: u8,
)
    requires
        0 <= member < count,
        0 <= q < lanes,
        before.len() == lanes * count,
        after == before.update(q * count + member, value),
        other_lanes_kept(original, before, member, count),
    ensures
        0 <= q * count + member < before.len(),
        lane(after, member, count, q) == value,
        forall|p: int|
            #![trigger lane(after, member, count, p)]
            0 <= p < lanes && p != q ==> lane(after, member, count, p) == lane(
                before,
                member,
                count,
                p,
            ),
        other_lanes_kept(original, after, member, count),
{
    lemma_row_major(q, member, count, lanes);
    assert forall|p: int| #![trigger lane(after, member, count, p)]
        0 <= p < lanes && p != q implies lane(after, member, count, p) == lane(
        before,
        member,
        count,
        p,
    ) by {
        lemma_distinct(p, member, q, member, count);
        lemma_row_major(p, member, count, lanes);
    }
    assert forall|k: int| 0 <= k < after.len() && k % count != member implies original[k]
        == after[k] by {
        assert(k != q * count + member);
    }
}

/// Write `band` into the lane of `member`. The other lanes stay as they are, also where the
/// work is stopped half way.
pub fn insert<C: Cancel>(
    packed: &mut [u8],
    band: &[u8],
    member: usize,
    count: usize,
    width: usize,
    height: usize,
    scalar: usize,
    planes: bool,
    cancel: &C,
) -> (r: Result<(), Error>)
    ensures
        match shape_of(width as int, height as int, scalar as int, count as int) {
            Err(e) => r == Err::<(), Error>(e) && final(packed)@ == old(packed)@,
            Ok((_, bytes)) => if !(member < count && old(packed)@.len() == bytes * count
                && band@.len() == bytes) {
                r == Err::<(), Error>(Error::GroupMember) && final(packed)@ == old(packed)@
            } else {
                &&& other_lanes_kept(old(packed)@, final(packed)@, member as int, count as int)
                &&& cancel.always() ==> final(packed)@ == old(packed)@
                &&& ended(
                    cancel,
                    r,
                    r is Ok && holds(
                        final(packed)@,
                        band@,
                        member as int,
                        count as int,
                        width as int,
                        height as int,
                        scalar as int,
                        planes,
                    ),
                )
            },
        },
{
    let (cells, bytes) = match shape(width, height, scalar, count) {
        Ok(v) => v,
        Err(e) => return Err(e),
    };
    proof {
        assert(bytes * count <= MAX_BYTES);
        assert(cells * (scalar + 1) == cells * scalar + cells) by (nonlinear_arith);
        assert((cells * scalar + cells) * count == cells * scalar * count + cells * count)
            by (nonlinear_arith);
        assert(0 <= cells * scalar && 0 <= cells * count && 0 <= cells * scalar * count)
            by (nonlinear_arith)
            requires
                0 <= cells,
                0 <= scalar,
                0 <= count,
        ;
    }
    if !(member < count && packed.len() == bytes * count && band.len() == bytes) {
        return Err(Error::GroupMember);
    }
    let group_samples: usize = cells * scalar * count;
    let ghost original = packed@;
    let ghost w = width as int;
    let ghost h = height as int;
    let ghost s = scalar as int;
    let ghost n = count as int;
    let ghost who = member as int;
    let mut row: usize = 0;
    while row < height
        invariant
            shaped(w, h, s, n),
            w == width && h == height && s == scalar && n == count && who == member,
            cells == w * h,
            bytes == cells * (s + 1),
            bytes == cells * s + cells,
            bytes * n <= MAX_BYTES,
            group_samples == cells * s * n,
            who < n,
            band@.len() == bytes,
            packed@.len() == bytes * n,
            row <= h,
            original == old(packed)@,
            original.len() == bytes * n,
            other_lanes_kept(original, packed@, who, n),
            row == 0 ==> packed@ == original,
            row > 0 ==> !cancel.always(),
            filled(packed@, band@, who, n, w, h, s, planes, row * s * w, row * w),
        decreases height - row,
    {
        check_cancel(cancel)?;
        let mut plane: usize = 0;
        proof {
            assert((row * s + 0) * w == row * s * w);
        }
        while plane < scalar
            invariant
                shaped(w, h, s, n),
                w == width && h == height && s == scalar && n == count && who == member,
                cells == w * h,
                bytes == cells * (s + 1),
                bytes == cells * s + cells,
                bytes * n <= MAX_BYTES,
                who < n,
                band@.len() == bytes,
                packed@.len() == bytes * n,
                row < h,
                plane <= s,
                other_lanes_kept(original, packed@, who, n),
                filled(packed@, band@, who, n, w, h, s, planes, (row * s + plane) * w, row * w),
            decreases scalar - plane,
        {
            let mut x: usize = 0;
            while x < width
                invariant
                    shaped(w, h, s, n),
                    w == width && h == height && s == scalar && n == count && who == member,
                    cells == w * h,
                    bytes == cells * (s + 1),
                    bytes == cells * s + cells,
                    bytes * n <= MAX_BYTES,
                    who < n,
                    band@.len() == bytes,
                    packed@.len() == bytes * n,
                    row < h,
                    plane < s,
                    x <= w,
                    other_lanes_kept(original, packed@, who, n),
                    filled(
                        packed@,
                        band@,
                        who,
                        n,
                        w,
                        h,
                        s,
                        planes,
                        (row * s + plane) * w + x,
                        row * w,
                    ),
                decreases width - x,
            {
                proof {
                    lemma_lane_position(w, h, s, row as int, plane as int, x as int);
                    let q = (row * s + plane) * w + x;
                    lane_order_is_a_permutation(planes, w, h, s, q);
                    lemma_row_major(q, who, n, bytes as int);
                    lemma_row_major(row as int, plane as int, s, h);
                    lemma_scalar_bounds(w, h, s, row as int, plane as int, x as int);
                }
                let cell: usize = row * width + x;
                let input: usize = if planes {
                    plane * cells + cell
                } else {
                    cell * scalar + plane
                };
                let output: usize = ((row * scalar + plane) * width + x) * count + member;
                let ghost before = packed@;
                packed[output] = band[input];
                proof {
                    lemma_lane_write(
                        before,
                        packed@,
                        original,
                        who,
                        n,
                        bytes as int,
                        (row * s + plane) * w + x,
                        band@[input as int],
                    );
                }
                x += 1;
            }
            proof {
                assert((row * s + plane) * w + w == (row * s + (plane + 1)) * w)
                    by (nonlinear_arith);
            }
            plane += 1;
        }
        let mut x: usize = 0;
        proof {
            assert((row * s + s) * w == (row + 1) * s * w) by (nonlinear_arith);
        }
        while x < width
            invariant
                shaped(w, h, s, n),
                w == width && h == height && s == scalar && n == count && who == member,
                cells == w * h,
                bytes == cells * (s + 1),
                bytes == cells * s + cells,
                bytes * n <= MAX_BYTES,
                group_samples == cells * s * n,
                who < n,
                band@.len() == bytes,
                packed@.len() == bytes * n,
                row < h,
                x <= w,
                other_lanes_kept(original, packed@, who, n),
                filled(
                    packed@,
                    band@,
                    who,
                    n,
                    w,
                    h,
                    s,
                    planes,
                    (row + 1) * s * w,
                    row * w + x,
                ),
            decreases width - x,
        {
            proof {
                lemma_row_major(row as int, x as int, w, h);
                assert(h * w == w * h) by (nonlinear_arith);
                let q = cells * s + row * w + x;
                assert(0 <= cells * s) by (nonlinear_arith)
                    requires
                        cells >= 0,
                        s >= 0,
                ;
                lemma_row_major(q, who, n, bytes as int);
                assert(q * n == cells * s * n + (row * w + x) * n) by (nonlinear_arith)
                    requires
                        q == cells * s + row * w + x,
                ;
                assert((row + 1) * s * w <= cells * s) by (nonlinear_arith)
                    requires
                        row < h,
                        s > 0,
                        w > 0,
                        cells == w * h,
                ;
                assert(0 <= (row * w + x) * n) by (nonlinear_arith)
                    requires
                        0 <= row * w + x,
                        0 <= n,
                ;
            }
            let cell: usize = row * width + x;
            let ghost before = packed@;
            packed[group_samples + cell * count + member] = band[cells * scalar + cell];
            proof {
                lemma_lane_write(
                    before,
                    packed@,
                    original,
                    who,
                    n,
                    bytes as int,
                    cells * s + row * w + x,
                    band@[cells * s + row * w + x],
                );
            }
            x += 1;
        }
        proof {
            assert(row * w + w == (row + 1) * w) by (nonlinear_arith);
        }
        row += 1;
    }
    check_cancel(cancel)?;
    proof {
        assert(h * s * w == w * h * s) by (nonlinear_arith);
        assert(h * w == w * h) by (nonlinear_arith);
    }
    Ok(())
}

pub proof fn lemma_scalar_bounds(w: int, h: int, s: int, row: int, plane: int, x: int)
    requires
        shaped(w, h, s, 1),
        0 <= row < h,
        0 <= plane < s,
        0 <= x < w,
    ensures
        0 <= row * s + plane < 256 * 8,
        0 <= (row * s + plane) * w,
        (row * s + plane) * w + x < w * h * s,
        0 <= row * w + x < w * h,
        0 <= plane * (w * h),
        plane * (w * h) + (row * w + x) < w * h * s,
        0 <= (row * w + x) * s,
        (row * w + x) * s + plane < w * h * s,
{
    lemma_lane_position(w, h, s, row, plane, x);
    let cells = w * h;
    assert(cells * s == s * cells) by (nonlinear_arith);
    lemma_row_major(plane, row * w + x, cells, s);
    lemma_row_major(row * w + x, plane, s, cells);
    lemma_row_major(row, plane, s, h);
    assert(h * s <= 256 * 8) by (nonlinear_arith)
        requires
            h <= 256,
            0 < s <= 8,
    ;
    assert(0 <= (row * s + plane) * w) by (nonlinear_arith)
        requires
            0 <= row * s + plane,
            0 < w,
    ;
    assert(0 <= plane * (w * h) && 0 <= (row * w + x) * s) by (nonlinear_arith)
        requires
            0 <= plane,
            0 < w,
            0 < h,
            0 <= row * w + x,
            0 < s,
    ;
}

/// The band in the lane of `member`.
pub fn extract<C: Cancel>(
    packed: &[u8],
    member: usize,
    count: usize,
    width: usize,
    height: usize,
    scalar: usize,
    planes: bool,
    cancel: &C,
) -> (r: Result<Vec<u8>, Error>)
    ensures
        match shape_of(width as int, height as int, scalar as int, count as int) {
            Err(e) => r == Err::<Vec<u8>, Error>(e),
            Ok((_, bytes)) => if !(member < count && packed@.len() == bytes * count) {
                r == Err::<Vec<u8>, Error>(Error::GroupMember)
            } else {
                ended(
                    cancel,
                    r,
                    r matches Ok(band) && band@.len() == bytes && holds(
                        packed@,
                        band@,
                        member as int,
                        count as int,
                        width as int,
                        height as int,
                        scalar as int,
                        planes,
                    ),
                )
            },
        },
{
    let (cells, bytes) = match shape(width, height, scalar, count) {
        Ok(v) => v,
        Err(e) => return Err(e),
    };
    proof {
        assert(cells * (scalar + 1) == cells * scalar + cells) by (nonlinear_arith);
        assert((cells * scalar + cells) * count == cells * scalar * count + cells * count)
            by (nonlinear_arith);
        assert(0 <= cells * scalar && 0 <= cells * count && 0 <= cells * scalar * count)
            by (nonlinear_arith)
            requires
                0 <= cells,
                0 <= scalar,
                0 <= count,
        ;
    }
    if !(member < count && packed.len() == bytes * count) {
        return Err(Error::GroupMember);
    }
    let group_samples: usize = cells * scalar * count;
    let mut band: Vec<u8> = vec![0u8; bytes];
    let ghost w = width as int;
    let ghost h = height as int;
    let ghost s = scalar as int;
    let ghost n = count as int;
    let ghost who = member as int;
    let mut row: usize = 0;
    while row < height
        invariant
            shaped(w, h, s, n),
            w == width && h == height && s == scalar && n == count && who == member,
            cells == w * h,
            bytes == cells * (s + 1),
            bytes == cells * s + cells,
            bytes * n <= MAX_BYTES,
            group_samples == cells * s * n,
            who < n,
            band@.len() == bytes,
            packed@.len() == bytes * n,
            row <= h,
            filled(packed@, band@, who, n, w, h, s, planes, row * s * w, row * w),
        decreases height - row,
    {
        check_cancel(cancel)?;
        let mut plane: usize = 0;
        proof {
            assert((row * s + 0) * w == row * s * w);
        }
        while plane < scalar
            invariant
                shaped(w, h, s, n),
                w == width && h == height && s == scalar && n == count && who == member,
                cells == w * h,
                bytes == cells * (s + 1),
                bytes == cells * s + cells,
                bytes * n <= MAX_BYTES,
                who < n,
                band@.len() == bytes,
                packed@.len() == bytes * n,
                row < h,
                plane <= s,
                filled(packed@, band@, who, n, w, h, s, planes, (row * s + plane) * w, row * w),
            decreases scalar - plane,
        {
            let mut x: usize = 0;
            while x < width
                invariant
                    shaped(w, h, s, n),
                    w == width && h == height && s == scalar && n == count && who == member,
                    cells == w * h,
                    bytes == cells * (s + 1),
                    bytes == cells * s + cells,
                    bytes * n <= MAX_BYTES,
                    who < n,
                    band@.len() == bytes,
                    packed@.len() == bytes * n,
                    row < h,
                    plane < s,
                    x <= w,
                    filled(
                        packed@,
                        band@,
                        who,
                        n,
                        w,
                        h,
                        s,
                        planes,
                        (row * s + plane) * w + x,
                        row * w,
                    ),
                decreases width - x,
            {
                let ghost q = (row * s + plane) * w + x;
                proof {
                    lemma_lane_position(w, h, s, row as int, plane as int, x as int);
                    lane_order_is_a_permutation(planes, w, h, s, q);
                    lemma_row_major(q, who, n, bytes as int);
                    lemma_scalar_bounds(w, h, s, row as int, plane as int, x as int);
                }
                let cell: usize = row * width + x;
                let output: usize = if planes {
                    plane * cells + cell
                } else {
                    cell * scalar + plane
                };
                let input: usize = ((row * scalar + plane) * width + x) * count + member;
                let ghost before = band@;
                band[output] = packed[input];
                proof {
                    lemma_gather(packed@, before, who, n, w, h, s, planes, q, row * w, row as int, x as int);
                }
                x += 1;
            }
            proof {
                assert((row * s + plane) * w + w == (row * s + (plane + 1)) * w)
                    by (nonlinear_arith);
            }
            plane += 1;
        }
        let mut x: usize = 0;
        proof {
            assert((row * s + s) * w == (row + 1) * s * w) by (nonlinear_arith);
        }
        while x < width
            invariant
                shaped(w, h, s, n),
                w == width && h == height && s == scalar && n == count && who == member,
                cells == w * h,
                bytes == cells * (s + 1),
                bytes == cells * s + cells,
                bytes * n <= MAX_BYTES,
                group_samples == cells * s * n,
                who < n,
                band@.len() == bytes,
                packed@.len() == bytes * n,
                row < h,
                x <= w,
                filled(
                    packed@,
                    band@,
                    who,
                    n,
                    w,
                    h,
                    s,
                    planes,
                    (row + 1) * s * w,
                    row * w + x,
                ),
            decreases width - x,
        {
            proof {
                lemma_row_major(row as int, x as int, w, h);
                assert(h * w == w * h) by (nonlinear_arith);
                let q = cells * s + row * w + x;
                assert(0 <= cells * s) by (nonlinear_arith)
                    requires
                        cells >= 0,
                        s >= 0,
                ;
                lemma_row_major(q, who, n, bytes as int);
                assert(q * n == cells * s * n + (row * w + x) * n) by (nonlinear_arith)
                    requires
                        q == cells * s + row * w + x,
                ;
                assert((row + 1) * s * w <= cells * s) by (nonlinear_arith)
                    requires
                        row < h,
                        s > 0,
                        w > 0,
                        cells == w * h,
                ;
                assert(0 <= (row * w + x) * n) by (nonlinear_arith)
                    requires
                        0 <= row * w + x,
                        0 <= n,
                ;
            }
            let cell: usize = row * width + x;
            let ghost before = band@;
            band[cells * scalar + cell] = packed[group_samples + cell * count + member];
            proof {
                lane_order_is_a_permutation(planes, w, h, s, cells * s + cell);
                assert(lane(packed@, who, n, cells * s + cell) == band@[cells * s + cell]) by {
                    assert((cells * s + cell) * n == cells * s * n + cell * n) by (nonlinear_arith);
                }
                assert forall|p: int| #![trigger lane(packed@, who, n, p)]
                    0 <= p < (row + 1) * s * w implies lane(packed@, who, n, p) == band@[band_index(
                    planes,
                    w,
                    h,
                    s,
                    p,
                )] by {
                    lane_order_is_a_permutation(planes, w, h, s, p);
                    assert(lane(packed@, who, n, p) == before[band_index(planes, w, h, s, p)]);
                }
            }
            x += 1;
        }
        proof {
            assert(row * w + w == (row + 1) * w) by (nonlinear_arith);
        }
        row += 1;
    }
    check_cancel(cancel)?;
    proof {
        assert(h * s * w == w * h * s) by (nonlinear_arith);
        assert(h * w == w * h) by (nonlinear_arith);
    }
    Ok(band)
}

proof fn lemma_gather(
    packed: Seq<u8>,
    before: Seq<u8>,
    member: int,
    count: int,
    w: int,
    h: int,
    s: int,
    planes: bool,
    q: int,
    m: int,
    row: int,
    x: int,
)
    requires
        w > 0,
        h > 0,
        s > 0,
        0 <= q < w * h * s,
        0 <= m <= w * h,
        before.len() == band_bytes(w, h, s),
        filled(packed, before, member, count, w, h, s, planes, q, m),
    ensures
        filled(
            packed,
            before.update(band_index(planes, w, h, s, q), lane(packed, member, count, q)),
            member,
            count,
            w,
            h,
            s,
            planes,
            q + 1,
            m,
        ),
{
    let cells = w * h;
    assert(cells * (s + 1) == cells * s + cells) by (nonlinear_arith);
    lane_order_is_a_permutation(planes, w, h, s, q);
    let at = band_index(planes, w, h, s, q);
    let after = before.update(at, lane(packed, member, count, q));
    assert forall|p: int| #![trigger lane(packed, member, count, p)]
        0 <= p < q + 1 implies lane(packed, member, count, p) == after[band_index(
        planes,
        w,
        h,
        s,
        p,
    )] by {
        lane_order_is_a_permutation(planes, w, h, s, p);
    }
    assert forall|p: int| #![trigger lane(packed, member, count, p)]
        cells * s <= p < cells * s + m implies lane(packed, member, count, p) == after[p] by {
        lane_order_is_a_permutation(planes, w, h, s, p);
        assert(band_index(planes, w, h, s, p) == p);
    }
}

/// A lane keeps its band when another lane is written.
pub proof fn insertion_keeps_the_other_bands(
    before: Seq<u8>,
    after: Seq<u8>,
    band: Seq<u8>,
    member: int,
    written: int,
    count: int,
    width: int,
    height: int,
    scalar: int,
    planes: bool,
)
    requires
        admitted(width, height, scalar, count),
        0 <= member < count,
        0 <= written < count,
        member != written,
        before.len() == band_bytes(width, height, scalar) * count,
        holds(before, band, member, count, width, height, scalar, planes),
        other_lanes_kept(before, after, written, count),
    ensures
        holds(after, band, member, count, width, height, scalar, planes),
{
    assert forall|q: int| #![trigger lane(after, member, count, q)]
        0 <= q < band_bytes(width, height, scalar) implies lane(after, member, count, q)
        == band[band_index(planes, width, height, scalar, q)] by {
        lemma_row_major(q, member, count, band_bytes(width, height, scalar));
        assert(lane(before, member, count, q) == lane(after, member, count, q));
    }
}

/// Tile-local source bounds, destination offset, and complete output shape.
#[derive(Clone, Copy, Debug)]
pub struct CopyRegion {
    pub source: [usize; 4],
    pub target: [usize; 2],
    pub output_shape: [usize; 2],
}

impl CopyRegion {
    /// The source lies in a tile of `width` by `height` cells and is not empty.
    pub open spec fn source_ok(self, width: int, height: int) -> bool {
        &&& self.source[0] < self.source[2] <= width
        &&& self.source[1] < self.source[3] <= height
    }

    pub open spec fn columns(self) -> int {
        self.source[2] - self.source[0]
    }

    pub open spec fn rows(self) -> int {
        self.source[3] - self.source[1]
    }

    /// Cells of the output.
    pub open spec fn cells(self) -> int {
        self.output_shape[0] * self.output_shape[1]
    }

    /// The destination lies in the output.
    pub open spec fn target_ok(self) -> bool {
        &&& self.output_shape[0] > 0
        &&& self.output_shape[1] > 0
        &&& self.target[0] + self.columns() <= self.output_shape[0]
        &&& self.target[1] + self.rows() <= self.output_shape[1]
    }

    /// Output cell `cell` is one of the destination.
    pub open spec fn reaches(self, cell: int) -> bool {
        let x = cell % self.output_shape[0] as int;
        let y = cell / self.output_shape[0] as int;
        &&& self.target[0] <= x < self.target[0] + self.columns()
        &&& self.target[1] <= y < self.target[1] + self.rows()
    }

    /// The tile column of output cell `cell`.
    pub open spec fn column(self, cell: int) -> int {
        self.source[0] + cell % self.output_shape[0] as int - self.target[0]
    }

    /// The tile row of output cell `cell`.
    pub open spec fn row(self, cell: int) -> int {
        self.source[1] + cell / self.output_shape[0] as int - self.target[1]
    }
}

/// The sum of the bytes of a lane from `q` to `q + x`, as far as a byte holds it.
pub open spec fn running(packed: Seq<u8>, member: int, count: int, q: int, x: int) -> u8
    decreases x + 1,
{
    if x < 0 {
        0
    } else {
        ((running(packed, member, count, q, x - 1) + lane(packed, member, count, q + x)) % 256) as u8
    }
}

/// The sample byte of a tile at a row, a plane and a column: the byte in the lane, or, in a
/// predicted group, the sum of the row's bytes up to it.
pub open spec fn sample(
    packed: Seq<u8>,
    member: int,
    count: int,
    width: int,
    scalar: int,
    predicted: bool,
    row: int,
    plane: int,
    x: int,
) -> u8 {
    let q = (row * scalar + plane) * width;
    if predicted {
        running(packed, member, count, q, x)
    } else {
        lane(packed, member, count, q + x)
    }
}

/// The mask of a tile at a row and a column.
pub open spec fn mask(
    packed: Seq<u8>,
    member: int,
    count: int,
    width: int,
    height: int,
    scalar: int,
    row: int,
    x: int,
) -> u8 {
    lane(packed, member, count, width * height * scalar + row * width + x)
}

/// Why a raw restore of `region` into `output` is refused, if it is.
pub open spec fn restore_refusal(
    packed: int,
    member: int,
    count: int,
    width: int,
    height: int,
    scalar: int,
    region: CopyRegion,
    samples: int,
    masks: int,
) -> Option<Error> {
    match shape_of(width, height, scalar, count) {
        Err(e) => Some(e),
        Ok((_, bytes)) => if !(member < count && packed == bytes * count && region.source_ok(
            width,
            height,
        )) {
            Some(Error::GroupRestoreRegion)
        } else if region.cells() > usize::MAX {
            Some(Error::GroupRestoreOutputOverflow)
        } else if !(region.target_ok() && region.cells() * scalar == samples && region.cells()
            == masks) {
            Some(Error::GroupRestoreDestination)
        } else {
            None
        },
    }
}

/// Sample byte `k` of the output was written before the byte at a tile row, a plane and a
/// column, in the order row, plane, column.
spec fn sample_written(region: CopyRegion, scalar: int, k: int, y: int, plane: int, x: int) -> bool {
    let cell = k / scalar;
    let p = k % scalar;
    &&& region.reaches(cell)
    &&& region.row(cell) < y || region.row(cell) == y && (p < plane || p == plane && region.column(
        cell,
    ) < x)
}

spec fn mask_written(region: CopyRegion, k: int, y: int, x: int) -> bool {
    &&& region.reaches(k)
    &&& region.row(k) < y || region.row(k) == y && region.column(k) < x
}

/// Where the destination of a tile cell stands in the output.
pub open spec fn target_cell(region: CopyRegion, y: int, x: int) -> int {
    (region.target[1] + y - region.source[1]) * region.output_shape[0] + region.target[0] + x
        - region.source[0]
}

pub proof fn lemma_target_cell(region: CopyRegion, width: int, height: int, y: int, x: int)
    requires
        region.source_ok(width, height),
        region.target_ok(),
        region.source[1] <= y < region.source[3],
        region.source[0] <= x < region.source[2],
    ensures
        0 <= target_cell(region, y, x) < region.cells(),
        region.reaches(target_cell(region, y, x)),
        region.row(target_cell(region, y, x)) == y,
        region.column(target_cell(region, y, x)) == x,
        0 <= (region.target[1] + y - region.source[1]) * region.output_shape[0],
{
    let a = region.target[1] + y - region.source[1];
    let b = region.target[0] + x - region.source[0];
    lemma_row_major(a, b, region.output_shape[0] as int, region.output_shape[1] as int);
    assert(region.output_shape[1] * region.output_shape[0] == region.cells()) by (nonlinear_arith)
        requires
            region.cells() == region.output_shape[0] * region.output_shape[1],
    ;
    assert(0 <= a * region.output_shape[0]) by (nonlinear_arith)
        requires
            0 <= a,
            0 < region.output_shape[0],
    ;
}

/// An output cell that is the destination of a tile cell stands where that one does.
pub proof fn lemma_reached_cell(region: CopyRegion, cell: int)
    requires
        region.target_ok(),
        0 <= cell < region.cells(),
    ensures
        target_cell(region, region.row(cell), region.column(cell)) == cell,
{
    assert(region.output_shape[1] * region.output_shape[0] == region.cells()) by (nonlinear_arith)
        requires
            region.cells() == region.output_shape[0] * region.output_shape[1],
    ;
    lemma_row_of(cell, region.output_shape[0] as int, region.output_shape[1] as int);
}

proof fn lemma_sample_step(
    region: CopyRegion,
    width: int,
    height: int,
    scalar: int,
    y: int,
    plane: int,
    x: int,
)
    requires
        region.source_ok(width, height),
        region.target_ok(),
        0 < scalar,
        0 <= plane < scalar,
        region.source[1] <= y < region.source[3],
        region.source[0] <= x < region.source[2],
    ensures
        0 <= target_cell(region, y, x) * scalar + plane < region.cells() * scalar,
        0 <= target_cell(region, y, x) * scalar,
        ({
            let i = target_cell(region, y, x) * scalar + plane;
            &&& i / scalar == target_cell(region, y, x)
            &&& i % scalar == plane
            &&& sample_written(region, scalar, i, y, plane, x + 1)
        }),
        forall|k: int|
            #![trigger sample_written(region, scalar, k, y, plane, x + 1)]
            0 <= k < region.cells() * scalar && k != target_cell(region, y, x) * scalar + plane
                ==> sample_written(region, scalar, k, y, plane, x + 1) == sample_written(
                region,
                scalar,
                k,
                y,
                plane,
                x,
            ),
{
    lemma_target_cell(region, width, height, y, x);
    let cell = target_cell(region, y, x);
    lemma_row_major(cell, plane, scalar, region.cells());
    assert(0 <= cell * scalar) by (nonlinear_arith)
        requires
            0 <= cell,
            0 < scalar,
    ;
    assert forall|k: int|
        #![trigger sample_written(region, scalar, k, y, plane, x + 1)]
        0 <= k < region.cells() * scalar && k != cell * scalar + plane implies sample_written(
        region,
        scalar,
        k,
        y,
        plane,
        x + 1,
    ) == sample_written(region, scalar, k, y, plane, x) by {
        lemma_row_of(k, scalar, region.cells());
        lemma_reached_cell(region, k / scalar);
    }
}

/// A row's planes are written when the next plane, or the next row, begins.
proof fn lemma_sample_next(region: CopyRegion, scalar: int, y: int, plane: int)
    requires
        region.target_ok(),
        0 < scalar,
    ensures
        forall|k: int|
            #![trigger sample_written(region, scalar, k, y, plane + 1, region.source[0] as int)]
            0 <= k < region.cells() * scalar ==> sample_written(
                region,
                scalar,
                k,
                y,
                plane + 1,
                region.source[0] as int,
            ) == sample_written(region, scalar, k, y, plane, region.source[2] as int),
        forall|k: int|
            #![trigger sample_written(region, scalar, k, y + 1, 0, region.source[0] as int)]
            0 <= k < region.cells() * scalar ==> sample_written(
                region,
                scalar,
                k,
                y + 1,
                0,
                region.source[0] as int,
            ) == sample_written(region, scalar, k, y, scalar, region.source[0] as int),
{
    assert forall|k: int| 0 <= k < region.cells() * scalar implies 0 <= #[trigger] (k % scalar)
        < scalar by {
        lemma_row_of(k, scalar, region.cells());
    }
}

/// The samples of `output` are those of the restored window where they are written, and
/// those of `original` elsewhere.
spec fn samples_so_far(
    packed: Seq<u8>,
    member: int,
    count: int,
    width: int,
    scalar: int,
    predicted: bool,
    region: CopyRegion,
    original: Seq<u8>,
    output: Seq<u8>,
    y: int,
    plane: int,
    x: int,
) -> bool {
    &&& output.len() == original.len()
    &&& forall|k: int|
        #![trigger output[k]]
        #![trigger sample_written(region, scalar, k, y, plane, x)]
        0 <= k < output.len() ==> output[k] == if sample_written(region, scalar, k, y, plane, x) {
            restored_sample(packed, member, count, width, scalar, predicted, region, k)
        } else {
            original[k]
        }
}

/// What sample byte `k` of the output is restored to.
pub open spec fn restored_sample(
    packed: Seq<u8>,
    member: int,
    count: int,
    width: int,
    scalar: int,
    predicted: bool,
    region: CopyRegion,
    k: int,
) -> u8 {
    sample(
        packed,
        member,
        count,
        width,
        scalar,
        predicted,
        region.row(k / scalar),
        k % scalar,
        region.column(k / scalar),
    )
}

/// What mask `k` of the output is restored to.
pub open spec fn restored_mask(
    packed: Seq<u8>,
    member: int,
    count: int,
    width: int,
    height: int,
    scalar: int,
    region: CopyRegion,
    k: int,
) -> u8 {
    mask(packed, member, count, width, height, scalar, region.row(k), region.column(k))
}

spec fn masks_so_far(
    packed: Seq<u8>,
    member: int,
    count: int,
    width: int,
    height: int,
    scalar: int,
    region: CopyRegion,
    original: Seq<u8>,
    output: Seq<u8>,
    y: int,
    x: int,
) -> bool {
    &&& output.len() == original.len()
    &&& forall|k: int|
        #![trigger output[k]]
        #![trigger mask_written(region, k, y, x)]
        0 <= k < output.len() ==> output[k] == if mask_written(region, k, y, x) {
            restored_mask(packed, member, count, width, height, scalar, region, k)
        } else {
            original[k]
        }
}

/// `output` is `original` with the restored window written into it: all of it, or, where
/// the work was stopped, perhaps only a part.
pub open spec fn restored(
    packed: Seq<u8>,
    member: int,
    count: int,
    width: int,
    height: int,
    scalar: int,
    predicted: bool,
    region: CopyRegion,
    original: RawBandWindow,
    output: RawBandWindow,
    whole: bool,
) -> bool {
    &&& output.samples_le@.len() == original.samples_le@.len()
    &&& output.mask@.len() == original.mask@.len()
    &&& forall|k: int|
        #![trigger output.samples_le@[k]]
        0 <= k < output.samples_le@.len() ==> {
            ||| !(whole && region.reaches(k / scalar)) && output.samples_le@[k]
                == original.samples_le@[k]
            ||| region.reaches(k / scalar) && output.samples_le@[k] == restored_sample(
                packed,
                member,
                count,
                width,
                scalar,
                predicted,
                region,
                k,
            )
        }
    &&& forall|k: int|
        #![trigger output.mask@[k]]
        0 <= k < output.mask@.len() ==> {
            ||| !(whole && region.reaches(k)) && output.mask@[k] == original.mask@[k]
            ||| region.reaches(k) && output.mask@[k] == restored_mask(
                packed,
                member,
                count,
                width,
                height,
                scalar,
                region,
                k,
            )
        }
}

pub proof fn lemma_group_bound(w: int, h: int, s: int, n: int)
    requires
        admitted(w, h, s, n),
    ensures
        0 < w * h,
        w * h <= w * h * s <= MAX_BYTES,
{
    let cells = w * h;
    assert(0 < cells) by (nonlinear_arith)
        requires
            cells == w * h,
            w > 0,
            h > 0,
    ;
    assert(cells <= cells * s && cells * s <= cells * (s + 1)) by (nonlinear_arith)
        requires
            cells > 0,
            s > 0,
    ;
    let b = cells * (s + 1);
    assert(b <= b * n) by (nonlinear_arith)
        requires
            b >= 0,
            n > 0,
    ;
}

/// Where the bytes of a row and a plane stand in the packet.
pub proof fn lemma_row_bytes(w: int, h: int, s: int, n: int, who: int, row: int, plane: int, x: int)
    requires
        admitted(w, h, s, n),
        0 <= who < n,
        0 <= row < h,
        0 <= plane < s,
        0 <= x < w,
    ensures
        0 <= row * s + plane,
        0 <= (row * s + plane) * w,
        0 <= (row * s + plane) * w * n,
        0 <= x * n,
        ((row * s + plane) * w + x) * n + who == (row * s + plane) * w * n + who + x * n,
        (row * s + plane) * w * n + who + x * n < band_bytes(w, h, s) * n,
        0 <= w * h * s * n,
        0 <= row * w,
        0 <= (row * w + x) * n,
        (w * h * s + row * w + x) * n + who == w * h * s * n + (row * w + x) * n + who,
        w * h * s * n + (row * w + x) * n + who < band_bytes(w, h, s) * n,
        (row * s + plane) * w + x <= MAX_BYTES,
        0 <= row * w + x <= MAX_BYTES,
{
    lemma_group_bound(w, h, s, n);
    lemma_scalar_bounds(w, h, s, row, plane, x);
    let cells = w * h;
    let q = (row * s + plane) * w + x;
    let m = cells * s + row * w + x;
    assert(cells * (s + 1) == cells * s + cells) by (nonlinear_arith);
    assert(0 <= cells * s && 0 <= cells) by (nonlinear_arith)
        requires
            cells == w * h,
            w > 0,
            h > 0,
            s > 0,
    ;
    lemma_row_major(q, who, n, band_bytes(w, h, s));
    assert(0 <= row * w) by (nonlinear_arith)
        requires
            0 <= row,
            0 < w,
    ;
    lemma_row_major(m, who, n, band_bytes(w, h, s));
    assert(q * n == (row * s + plane) * w * n + x * n) by (nonlinear_arith)
        requires
            q == (row * s + plane) * w + x,
    ;
    assert(m * n == cells * s * n + (row * w + x) * n) by (nonlinear_arith)
        requires
            m == cells * s + row * w + x,
    ;
    assert(0 <= (row * s + plane) * w * n && 0 <= x * n && 0 <= cells * s * n && 0 <= (row * w + x)
        * n) by (nonlinear_arith)
        requires
            0 <= (row * s + plane) * w,
            0 <= x,
            0 <= cells * s,
            0 <= row * w + x,
            0 < n,
    ;
}

/// The sum of the lane bytes of a row and a plane before column `end`.
pub(crate) fn row_prefix(
    packed: &[u8],
    input: usize,
    count: usize,
    end: usize,
    Ghost(w): Ghost<int>,
    Ghost(h): Ghost<int>,
    Ghost(s): Ghost<int>,
    Ghost(who): Ghost<int>,
    Ghost(row): Ghost<int>,
    Ghost(plane): Ghost<int>,
) -> (previous: u8)
    requires
        admitted(w, h, s, count as int),
        packed@.len() == band_bytes(w, h, s) * count,
        0 <= who < count,
        0 <= row < h,
        0 <= plane < s,
        end <= w,
        input == (row * s + plane) * w * count + who,
    ensures
        previous == running(packed@, who, count as int, (row * s + plane) * w, end - 1),
{
    let mut previous: u8 = 0;
    let mut x: usize = 0;
    while x < end
        invariant
            admitted(w, h, s, count as int),
            packed@.len() == band_bytes(w, h, s) * count,
            0 <= who < count,
            0 <= row < h,
            0 <= plane < s,
            x <= end <= w,
            input == (row * s + plane) * w * count + who,
            previous == running(packed@, who, count as int, (row * s + plane) * w, x - 1),
        decreases end - x,
    {
        proof {
            lemma_row_bytes(w, h, s, count as int, who, row, plane, x as int);
        }
        previous = previous.wrapping_add(packed[input + x * count]);
        x += 1;
    }
    previous
}

/// Restore only the requested window directly into its pre-admitted output.
/// Horizontal prediction requires the row prefix before the first requested
/// column; no preceding rows, following columns, or other bands are restored.
/// Gives the number of bytes that the window holds.
pub fn restore_member_window<C: Cancel>(
    packed: &[u8],
    member: usize,
    count: usize,
    width: usize,
    height: usize,
    scalar: usize,
    predicted: bool,
    region: CopyRegion,
    output: &mut RawBandWindow,
    cancel: &C,
) -> (r: Result<usize, Error>)
    ensures
        match restore_refusal(
            packed@.len() as int,
            member as int,
            count as int,
            width as int,
            height as int,
            scalar as int,
            region,
            old(output).samples_le@.len() as int,
            old(output).mask@.len() as int,
        ) {
            Some(e) => *final(output) == *old(output) && ended(
                cancel,
                r,
                r == Err::<usize, Error>(e),
            ),
            None => {
                &&& ended(
                    cancel,
                    r,
                    r matches Ok(n) && n == region.columns() * region.rows() * (scalar + 1),
                )
                &&& restored(
                    packed@,
                    member as int,
                    count as int,
                    width as int,
                    height as int,
                    scalar as int,
                    predicted,
                    region,
                    *old(output),
                    *final(output),
                    r is Ok,
                )
                &&& cancel.always() ==> *final(output) == *old(output)
            },
        },
{
    check_cancel(cancel)?;
    let (cells, bytes) = match shape(width, height, scalar, count) {
        Ok(v) => v,
        Err(e) => return Err(e),
    };
    let x0: usize = region.source[0];
    let y0: usize = region.source[1];
    let x1: usize = region.source[2];
    let y1: usize = region.source[3];
    let tx: usize = region.target[0];
    let ty: usize = region.target[1];
    let ow: usize = region.output_shape[0];
    let oh: usize = region.output_shape[1];
    if !(member < count && packed.len() == bytes * count && x0 < x1 && x1 <= width && y0 < y1 && y1
        <= height) {
        return Err(Error::GroupRestoreRegion);
    }
    let output_cells: usize = match ow.checked_mul(oh) {
        Some(n) => n,
        None => return Err(Error::GroupRestoreOutputOverflow),
    };
    let sample_len: usize = output.samples_le.len();
    let fits = match output_cells.checked_mul(scalar) {
        Some(n) => n == sample_len,
        None => false,
    };
    if !(ow > 0 && oh > 0 && fits && output_cells == output.mask.len() && x1 - x0 <= ow && tx <= ow
        - (x1 - x0) && y1 - y0 <= oh && ty <= oh - (y1 - y0)) {
        return Err(Error::GroupRestoreDestination);
    }
    let ghost w = width as int;
    let ghost h = height as int;
    let ghost s = scalar as int;
    let ghost n = count as int;
    let ghost who = member as int;
    let ghost original = *output;
    proof {
        lemma_row_bytes(w, h, s, n, who, 0, 0, 0);
        assert(w * h * s * n == cells * scalar * count);
        lemma_restore_start(region, s);
        assert(cells * s <= cells * (s + 1)) by (nonlinear_arith)
            requires
                cells >= 0,
        ;
        assert(cells * s * n <= band_bytes(w, h, s) * n) by (nonlinear_arith)
            requires
                cells * s <= cells * (s + 1),
                band_bytes(w, h, s) == cells * (s + 1),
                n > 0,
        ;
    }
    let group_samples: usize = cells * scalar * count;
    let mut y: usize = y0;
    while y < y1
        invariant
            admitted(w, h, s, n),
            w == width && h == height && s == scalar && n == count && who == member,
            cells == w * h,
            group_samples == w * h * s * n,
            who < n,
            packed@.len() == band_bytes(w, h, s) * n,
            x0 == region.source[0] && y0 == region.source[1] && x1 == region.source[2] && y1
                == region.source[3] && tx == region.target[0] && ty == region.target[1] && ow
                == region.output_shape[0] && oh == region.output_shape[1],
            region.source_ok(w, h),
            region.target_ok(),
            region.cells() == output_cells,
            output.samples_le@.len() == output_cells * s,
            sample_len == output_cells * s,
            output.mask@.len() == output_cells,
            y0 <= y <= y1,
            original == *old(output),
            samples_so_far(
                packed@,
                who,
                n,
                w,
                s,
                predicted,
                region,
                original.samples_le@,
                output.samples_le@,
                y as int,
                0,
                x0 as int,
            ),
            masks_so_far(
                packed@,
                who,
                n,
                w,
                h,
                s,
                region,
                original.mask@,
                output.mask@,
                y as int,
                x0 as int,
            ),
            restore_refusal(
                packed@.len() as int,
                who,
                n,
                w,
                h,
                s,
                region,
                original.samples_le@.len() as int,
                original.mask@.len() as int,
            ) is None,
            !cancel.always(),
        decreases y1 - y,
    {
        check_cancel(cancel)?;
        proof {
            lemma_target_cell(region, w, h, y as int, x0 as int);
        }
        let target: usize = (ty + (y - y0)) * ow + tx;
        let mut plane: usize = 0;
        let ghost mask_before = output.mask;
        while plane < scalar
            invariant
                admitted(w, h, s, n),
                w == width && h == height && s == scalar && n == count && who == member,
                who < n,
                packed@.len() == band_bytes(w, h, s) * n,
                x0 == region.source[0] && y0 == region.source[1] && x1 == region.source[2] && y1
                    == region.source[3] && tx == region.target[0] && ty == region.target[1] && ow
                    == region.output_shape[0] && oh == region.output_shape[1],
                region.source_ok(w, h),
                region.target_ok(),
                region.cells() == output_cells,
                output.samples_le@.len() == output_cells * s,
            sample_len == output_cells * s,
                y0 <= y < y1,
                plane <= s,
                target == target_cell(region, y as int, x0 as int),
                samples_so_far(
                    packed@,
                    who,
                    n,
                    w,
                    s,
                    predicted,
                    region,
                    original.samples_le@,
                    output.samples_le@,
                    y as int,
                    plane as int,
                    x0 as int,
                ),
                output.mask == mask_before,
            decreases scalar - plane,
        {
            proof {
                lemma_row_bytes(w, h, s, n, who, y as int, plane as int, 0);
                lemma_row_major(y as int, plane as int, s, h);
                lemma_scalar_bounds(w, h, s, y as int, plane as int, 0);
            }
            let input: usize = (y * scalar + plane) * width * count + member;
            let mut previous: u8 = 0;
            if predicted {
                // This prefix is required even when its cells are masked or
                // lie outside the requested window. It operates only on bits.
                previous = row_prefix(
                    packed,
                    input,
                    count,
                    x0,
                    Ghost(w),
                    Ghost(h),
                    Ghost(s),
                    Ghost(who),
                    Ghost(y as int),
                    Ghost(plane as int),
                );
            }
            let mut x: usize = x0;
            while x < x1
                invariant
                    admitted(w, h, s, n),
                    w == width && h == height && s == scalar && n == count && who == member,
                    who < n,
                    packed@.len() == band_bytes(w, h, s) * n,
                    x0 == region.source[0] && y0 == region.source[1] && x1 == region.source[2]
                        && y1 == region.source[3] && tx == region.target[0] && ty
                        == region.target[1] && ow == region.output_shape[0] && oh
                        == region.output_shape[1],
                    region.source_ok(w, h),
                    region.target_ok(),
                    region.cells() == output_cells,
                    output.samples_le@.len() == output_cells * s,
            sample_len == output_cells * s,
                    y0 <= y < y1,
                    plane < s,
                    x0 <= x <= x1,
                    target == target_cell(region, y as int, x0 as int),
                    input == (y * s + plane) * w * n + who,
                    predicted ==> previous == running(
                        packed@,
                        who,
                        n,
                        (y * s + plane) * w,
                        x - 1,
                    ),
                    samples_so_far(
                        packed@,
                        who,
                        n,
                        w,
                        s,
                        predicted,
                        region,
                        original.samples_le@,
                        output.samples_le@,
                        y as int,
                        plane as int,
                        x as int,
                    ),
                    output.mask == mask_before,
                decreases x1 - x,
            {
                proof {
                    lemma_row_bytes(w, h, s, n, who, y as int, plane as int, x as int);
                    lemma_sample_step(region, w, h, s, y as int, plane as int, x as int);
                    lemma_target_cell(region, w, h, y as int, x as int);
                }
                let byte: u8 = packed[input + x * count];
                if predicted {
                    previous = previous.wrapping_add(byte);
                } else {
                    previous = byte;
                }
                let ghost before = output.samples_le@;
                let at: usize = (target + (x - x0)) * scalar + plane;
                output.samples_le[at] = previous;
                proof {
                    assert(output.samples_le@ == before.update(at as int, previous));
                    assert(previous == restored_sample(
                        packed@,
                        who,
                        n,
                        w,
                        s,
                        predicted,
                        region,
                        at as int,
                    ));
                    assert forall|k: int|
                        #![trigger output.samples_le@[k]]
                        #![trigger sample_written(region, s, k, y as int, plane as int, x + 1)]
                        0 <= k < output.samples_le@.len() implies output.samples_le@[k]
                        == if sample_written(region, s, k, y as int, plane as int, x + 1) {
                        restored_sample(packed@, who, n, w, s, predicted, region, k)
                    } else {
                        original.samples_le@[k]
                    } by {
                        if k != at {
                            assert(output.samples_le@[k] == before[k]);
                            assert(sample_written(region, s, k, y as int, plane as int, x + 1)
                                == sample_written(region, s, k, y as int, plane as int, x as int));
                        }
                    }
                }
                x += 1;
            }
            proof {
                lemma_sample_next(region, s, y as int, plane as int);
            }
            plane += 1;
        }
        proof {
            lemma_sample_next(region, s, y as int, s);
        }
        let ghost samples_before = output.samples_le;
        let mut x: usize = x0;
        while x < x1
            invariant
                admitted(w, h, s, n),
                w == width && h == height && s == scalar && n == count && who == member,
                group_samples == w * h * s * n,
                who < n,
                packed@.len() == band_bytes(w, h, s) * n,
                x0 == region.source[0] && y0 == region.source[1] && x1 == region.source[2] && y1
                    == region.source[3] && tx == region.target[0] && ty == region.target[1] && ow
                    == region.output_shape[0] && oh == region.output_shape[1],
                region.source_ok(w, h),
                region.target_ok(),
                region.cells() == output_cells,
                output.mask@.len() == output_cells,
                y0 <= y < y1,
                x0 <= x <= x1,
                target == target_cell(region, y as int, x0 as int),
                masks_so_far(
                    packed@,
                    who,
                    n,
                    w,
                    h,
                    s,
                    region,
                    original.mask@,
                    output.mask@,
                    y as int,
                    x as int,
                ),
                output.samples_le == samples_before,
            decreases x1 - x,
        {
            proof {
                lemma_row_bytes(w, h, s, n, who, y as int, 0, x as int);
                lemma_target_cell(region, w, h, y as int, x as int);
                lemma_scalar_bounds(w, h, s, y as int, 0, x as int);
            }
            let ghost before = output.mask@;
            let at: usize = target + (x - x0);
            output.mask[at] = packed[group_samples + (y * width + x) * count + member];
            proof {
                assert forall|k: int|
                    #![trigger output.mask@[k]]
                    #![trigger mask_written(region, k, y as int, x + 1)]
                    0 <= k < output.mask@.len() implies output.mask@[k] == if mask_written(
                    region,
                    k,
                    y as int,
                    x + 1,
                ) {
                    restored_mask(packed@, who, n, w, h, s, region, k)
                } else {
                    original.mask@[k]
                } by {
                    if k != at {
                        lemma_reached_cell(region, k);
                        assert(output.mask@[k] == before[k]);
                        assert(mask_written(region, k, y as int, x + 1) == mask_written(
                            region,
                            k,
                            y as int,
                            x as int,
                        ));
                    }
                }
            }
            x += 1;
        }
        proof {
            assert forall|k: int|
                #![trigger output.mask@[k]]
                #![trigger mask_written(region, k, y + 1, x0 as int)]
                0 <= k < output.mask@.len() implies output.mask@[k] == if mask_written(
                region,
                k,
                y + 1,
                x0 as int,
            ) {
                restored_mask(packed@, who, n, w, h, s, region, k)
            } else {
                original.mask@[k]
            } by {
                assert(mask_written(region, k, y + 1, x0 as int) == mask_written(
                    region,
                    k,
                    y as int,
                    x1 as int,
                ));
            }
        }
        y += 1;
    }
    check_cancel(cancel)?;
    proof {
        lemma_restore_count(region.columns(), region.rows(), s);
    }
    Ok((x1 - x0) * (y1 - y0) * (scalar + 1))
}

pub proof fn lemma_restore_count(columns: int, rows: int, scalar: int)
    requires
        0 < columns <= 256,
        0 < rows <= 256,
        0 < scalar <= 8,
    ensures
        0 < columns * rows <= 65536,
        0 < columns * rows * (scalar + 1) <= 65536 * 9,
{
    assert(0 < columns * rows <= 65536) by (nonlinear_arith)
        requires
            0 < columns <= 256,
            0 < rows <= 256,
    ;
    let c = columns * rows;
    assert(0 < c * (scalar + 1) <= 65536 * 9) by (nonlinear_arith)
        requires
            0 < c <= 65536,
            0 < scalar <= 8,
    ;
}

/// Nothing is written before the first row.
proof fn lemma_restore_start(region: CopyRegion, scalar: int)
    requires
        region.target_ok(),
        0 < scalar,
    ensures
        forall|k: int|
            #![trigger sample_written(region, scalar, k, region.source[1] as int, 0, region.source[0] as int)]
            0 <= k < region.cells() * scalar ==> !sample_written(
                region,
                scalar,
                k,
                region.source[1] as int,
                0,
                region.source[0] as int,
            ),
        forall|k: int|
            #![trigger mask_written(region, k, region.source[1] as int, region.source[0] as int)]
            0 <= k < region.cells() ==> !mask_written(
                region,
                k,
                region.source[1] as int,
                region.source[0] as int,
            ),
{
    assert forall|k: int| 0 <= k < region.cells() * scalar implies 0 <= #[trigger] (k % scalar)
        < scalar by {
        lemma_row_of(k, scalar, region.cells());
    }
}

/// What [`encode`] answers: the stored bytes and the codec they are stored under.
pub open spec fn packet_of(input: Seq<u8>, codec: int, level: int) -> (Seq<u8>, u32) {
    if codec == 1 && zlib_of(input, level).len() <= input.len() {
        (zlib_of(input, level), 1)
    } else {
        (input, 0)
    }
}

/// Encode a packet. No encoded packet is larger than its decoded bytes: where compression
/// does not pay, the packet is stored as it is.
pub fn encode<C: Cancel>(input: &[u8], codec: u32, level: u32, cancel: &C) -> (r: Result<
    (Vec<u8>, u32),
    Error,
>)
    ensures
        if input@.len() == 0 || input@.len() > MAX_BYTES || codec > 1 || level > 9 {
            r == Err::<(Vec<u8>, u32), Error>(Error::GroupEncoding)
        } else {
            ended(
                cancel,
                r,
                r matches Ok((out, stored)) && (out@, stored) == packet_of(
                    input@,
                    codec as int,
                    level as int,
                ) && 0 < out@.len() <= input@.len() && decoded(
                    out@,
                    stored as int,
                    input@.len() as int,
                ) == Ok::<Seq<u8>, Error>(input@),
            )
        },
{
    if input.len() == 0 || input.len() > MAX_BYTES || codec > 1 || level > 9 {
        return Err(Error::GroupEncoding);
    }
    check_cancel(cancel)?;
    if codec == 0 {
        return Ok((slice_to_vec(input), 0));
    }
    let output = zlib_encode(input, level);
    check_cancel(cancel)?;
    if output.len() > input.len() {
        return Ok((slice_to_vec(input), 0));
    }
    proof {
        decoding_undoes_encoding(input@, 1, output@);
    }
    Ok((output, 1))
}

} // verus!
