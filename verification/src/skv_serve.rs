//! From the encoded payloads of a read to the samples and masks of its output.
use vstd::prelude::*;

use crate::bytes::{u32_at, u64_at};
use crate::cancel::{check_cancel, ended, Cancel};
use crate::codec::{blake3_of, decode, decoded};
use crate::error::Error;
use crate::index::{lemma_row_major, lemma_row_of};
use crate::layout::box_at;
use crate::skv_delta::{
    byte_delta, fused_restore_agrees_with_extraction, plain,
};
use crate::skv_directory::{
    leaf_refusal, lemma_leaf_cells, lemma_plain_bound, node_cells, rec_codec, rec_decoded,
    rec_digest, record_refusal,
};
use crate::skv_group::{
    admitted, band_bytes, band_index, holds, lane, lane_index,
    lane_order_is_a_permutation, lemma_reached_cell, lemma_restore_count, lemma_target_cell,
    restore_member_window, restore_refusal, restored, target_cell, CopyRegion,
};
use crate::skv_header::{Header, RECORD};
use crate::skv_record::{payload_hash, payload_seal};
use crate::skv_window::{Pending, Queue};
use crate::source::RawBandWindow;
use crate::text::{same, same_bytes};

verus! {

/// The packet in an encoded payload: its digest is the record's, and it decodes.
pub open spec fn packet_of(header: &Header, id: int, record: Seq<u8>, encoded: Seq<u8>) -> Result<
    Seq<u8>,
    Error,
> {
    if blake3_of(payload_seal(header, id, record, encoded)) != rec_digest(record) {
        Err(Error::PayloadChecksum)
    } else {
        decoded(encoded, rec_codec(record), rec_decoded(record))
    }
}

/// Check an encoded payload against its record, and decode it.
pub fn decode_packet<C: Cancel>(
    header: &Header,
    id: usize,
    record: &[u8],
    encoded: &[u8],
    cancel: &C,
) -> (r: Result<Vec<u8>, Error>)
    requires
        header.shaped(),
        record@.len() == RECORD,
    ensures
        ended(
            cancel,
            r,
            match packet_of(header, id as int, record@, encoded@) {
                Ok(bytes) => r matches Ok(out) && out@ == bytes,
                Err(e) => r == Err::<Vec<u8>, Error>(e),
            },
        ),
{
    check_cancel(cancel)?;
    let digest = payload_hash(header, id, record, encoded);
    if !same_bytes(digest.as_slice(), vstd::slice::slice_subrange(record, 32, 64)) {
        return Err(Error::PayloadChecksum);
    }
    decode(encoded, u32_at(record, 24), u32_at(record, 12) as usize, cancel)
}

/// The band in the lane of a member.
pub open spec fn lane_band(
    packed: Seq<u8>,
    member: int,
    count: int,
    w: int,
    h: int,
    s: int,
    planes: bool,
) -> Seq<u8> {
    Seq::new(
        band_bytes(w, h, s) as nat,
        |i: int| lane(packed, member, count, lane_index(planes, w, h, s, i)),
    )
}

pub proof fn lemma_lane_band(
    packed: Seq<u8>,
    member: int,
    count: int,
    w: int,
    h: int,
    s: int,
    planes: bool,
)
    requires
        admitted(w, h, s, count),
    ensures
        lane_band(packed, member, count, w, h, s, planes).len() == band_bytes(w, h, s),
        holds(packed, lane_band(packed, member, count, w, h, s, planes), member, count, w, h, s, planes),
{
    let band = lane_band(packed, member, count, w, h, s, planes);
    assert(band_bytes(w, h, s) >= 0) by (nonlinear_arith)
        requires
            band_bytes(w, h, s) == w * h * (s + 1),
            w > 0,
            h > 0,
            s > 0,
    ;
    assert forall|q: int|
        #![trigger lane(packed, member, count, q)]
        0 <= q < band_bytes(w, h, s) implies lane(packed, member, count, q) == band[band_index(
        planes,
        w,
        h,
        s,
        q,
    )] by {
        lane_order_is_a_permutation(planes, w, h, s, q);
    }
}

/// The samples and masks of a tile, cell after cell: of an independent chunk, or of a member
/// of a group.
pub open spec fn tile_bytes(
    packet: Seq<u8>,
    grouped: bool,
    predicted: bool,
    member: int,
    count: int,
    w: int,
    h: int,
    s: int,
) -> Seq<u8> {
    if grouped {
        plain(lane_band(packet, member, count, w, h, s, predicted), w, h, s, predicted)
    } else {
        plain(packet, w, h, s, predicted)
    }
}

/// `output` is `original` with the window of a tile written into it: all of it, or, where
/// the work was stopped, perhaps only a part.
pub open spec fn windowed(
    tile: Seq<u8>,
    w: int,
    h: int,
    s: int,
    region: CopyRegion,
    original: RawBandWindow,
    output: RawBandWindow,
    whole: bool,
) -> bool {
    &&& output.samples_le@.len() == original.samples_le@.len()
    &&& output.mask@.len() == original.mask@.len()
    &&& forall|k: int|
        #![trigger output.samples_le@[k]]
        0 <= k < output.samples_le@.len() ==> {
            ||| !(whole && region.reaches(k / s)) && output.samples_le@[k] == original.samples_le@[k]
            ||| region.reaches(k / s) && output.samples_le@[k] == tile[(region.row(k / s) * w
                + region.column(k / s)) * s + k % s]
        }
    &&& forall|k: int|
        #![trigger output.mask@[k]]
        0 <= k < output.mask@.len() ==> {
            ||| !(whole && region.reaches(k)) && output.mask@[k] == original.mask@[k]
            ||| region.reaches(k) && output.mask@[k] == tile[w * h * s + region.row(k) * w
                + region.column(k)]
        }
}

/// A region that a window of a tile is copied by.
pub open spec fn region_ok(region: CopyRegion, w: int, h: int, s: int, output: RawBandWindow) -> bool {
    &&& region.source_ok(w, h)
    &&& region.target_ok()
    &&& region.cells() == output.mask@.len()
    &&& region.cells() * s == output.samples_le@.len()
}

/// What [`restore_member_window`] writes is the window of the member's tile.
pub proof fn restored_is_windowed(
    packed: Seq<u8>,
    member: int,
    count: int,
    w: int,
    h: int,
    s: int,
    predicted: bool,
    region: CopyRegion,
    original: RawBandWindow,
    output: RawBandWindow,
    whole: bool,
)
    requires
        admitted(w, h, s, count),
        region_ok(region, w, h, s, original),
        restored(packed, member, count, w, h, s, predicted, region, original, output, whole),
    ensures
        windowed(
            tile_bytes(packed, true, predicted, member, count, w, h, s),
            w,
            h,
            s,
            region,
            original,
            output,
            whole,
        ),
{
    let band = lane_band(packed, member, count, w, h, s, predicted);
    let tile = tile_bytes(packed, true, predicted, member, count, w, h, s);
    lemma_lane_band(packed, member, count, w, h, s, predicted);
    assert forall|k: int|
        #![trigger output.samples_le@[k]]
        0 <= k < output.samples_le@.len() implies {
        ||| !(whole && region.reaches(k / s)) && output.samples_le@[k] == original.samples_le@[k]
        ||| region.reaches(k / s) && output.samples_le@[k] == tile[(region.row(k / s) * w
            + region.column(k / s)) * s + k % s]
    } by {
        lemma_row_of(k, s, region.cells());
        if region.reaches(k / s) {
            fused_restore_agrees_with_extraction(
                packed,
                band,
                member,
                count,
                w,
                h,
                s,
                predicted,
                region.row(k / s),
                k % s,
                region.column(k / s),
            );
        }
    }
    assert forall|k: int|
        #![trigger output.mask@[k]]
        0 <= k < output.mask@.len() implies {
        ||| !(whole && region.reaches(k)) && output.mask@[k] == original.mask@[k]
        ||| region.reaches(k) && output.mask@[k] == tile[w * h * s + region.row(k) * w
            + region.column(k)]
    } by {
        if region.reaches(k) {
            fused_restore_agrees_with_extraction(
                packed,
                band,
                member,
                count,
                w,
                h,
                s,
                predicted,
                region.row(k),
                0,
                region.column(k),
            );
        }
    }
}

/// Copy the window of a tile whose samples stand cell after cell.
pub fn copy_tile_window(
    tile: &[u8],
    width: usize,
    height: usize,
    scalar: usize,
    region: CopyRegion,
    output: &mut RawBandWindow,
) -> (copied: usize)
    requires
        admitted(width as int, height as int, scalar as int, 1),
        tile@.len() == band_bytes(width as int, height as int, scalar as int),
        region_ok(region, width as int, height as int, scalar as int, *old(output)),
    ensures
        windowed(
            tile@,
            width as int,
            height as int,
            scalar as int,
            region,
            *old(output),
            *final(output),
            true,
        ),
        copied == region.columns() * region.rows() * (scalar + 1),
{
    let ghost w = width as int;
    let ghost h = height as int;
    let ghost s = scalar as int;
    let ghost original = *output;
    let x0: usize = region.source[0];
    let y0: usize = region.source[1];
    let x1: usize = region.source[2];
    let y1: usize = region.source[3];
    let tx: usize = region.target[0];
    let ty: usize = region.target[1];
    let ow: usize = region.output_shape[0];
    let sample_len: usize = output.samples_le.len();
    let mask_len: usize = output.mask.len();
    proof {
        crate::skv_group::lemma_group_bound(w, h, s, 1);
        assert(w * h * (s + 1) == w * h * s + w * h) by (nonlinear_arith);
        assert(forall|k: int|
            0 <= k < region.cells() * s ==> !tile_sample_written(
                region,
                s,
                k,
                y0 as int,
                x0 as int,
                0,
            )) by {
            assert forall|k: int| 0 <= k < region.cells() * s implies !tile_sample_written(
                region,
                s,
                k,
                y0 as int,
                x0 as int,
                0,
            ) by {
                lemma_row_of(k, s, region.cells());
            }
        }
    }
    let cells: usize = width * height;
    let samples: usize = cells * scalar;
    let mut y: usize = y0;
    while y < y1
        invariant
            admitted(w, h, s, 1),
            w == width && h == height && s == scalar,
            w * h * (s + 1) == w * h * s + w * h,
            0 < w * h <= w * h * s <= 3276800,
            tile@.len() == w * h * s + w * h,
            samples == w * h * s,
            x0 == region.source[0] && y0 == region.source[1] && x1 == region.source[2] && y1
                == region.source[3] && tx == region.target[0] && ty == region.target[1] && ow
                == region.output_shape[0],
            region_ok(region, w, h, s, original),
            output.samples_le@.len() == sample_len,
            output.mask@.len() == mask_len,
            sample_len == region.cells() * s,
            mask_len == region.cells(),
            y0 <= y <= y1,
            copied_so_far(tile@, w, h, s, region, original, *output, y as int, x0 as int, 0),
        decreases y1 - y,
    {
        let mut x: usize = x0;
        while x < x1
            invariant
                admitted(w, h, s, 1),
                w == width && h == height && s == scalar,
                0 < w * h <= w * h * s <= 3276800,
                tile@.len() == w * h * s + w * h,
                samples == w * h * s,
                x0 == region.source[0] && y0 == region.source[1] && x1 == region.source[2] && y1
                    == region.source[3] && tx == region.target[0] && ty == region.target[1] && ow
                    == region.output_shape[0],
                region_ok(region, w, h, s, original),
                output.samples_le@.len() == sample_len,
                output.mask@.len() == mask_len,
                sample_len == region.cells() * s,
                mask_len == region.cells(),
                y0 <= y < y1,
                x0 <= x <= x1,
                copied_so_far(tile@, w, h, s, region, original, *output, y as int, x as int, 0),
            decreases x1 - x,
        {
            proof {
                lemma_target_cell(region, w, h, y as int, x as int);
                lemma_row_major(y as int, x as int, w, h);
                assert(h * w == w * h) by (nonlinear_arith);
                assert(0 <= y * w) by (nonlinear_arith)
                    requires
                        0 <= y,
                        0 < w,
                ;
            }
            let from: usize = y * width + x;
            let to: usize = (ty + (y - y0)) * ow + tx + (x - x0);
            let mut p: usize = 0;
            while p < scalar
                invariant
                    admitted(w, h, s, 1),
                    w == width && h == height && s == scalar,
                    0 < w * h <= w * h * s <= 3276800,
                    tile@.len() == w * h * s + w * h,
                    region_ok(region, w, h, s, original),
                    output.samples_le@.len() == sample_len,
                    output.mask@.len() == mask_len,
                    sample_len == region.cells() * s,
                    mask_len == region.cells(),
                    region.source[1] <= y < region.source[3],
                    region.source[0] <= x < region.source[2],
                    from == y * w + x,
                    0 <= from < w * h,
                    to == target_cell(region, y as int, x as int),
                    p <= s,
                    copied_so_far(
                        tile@,
                        w,
                        h,
                        s,
                        region,
                        original,
                        *output,
                        y as int,
                        x as int,
                        p as int,
                    ),
                decreases scalar - p,
            {
                proof {
                    lemma_target_cell(region, w, h, y as int, x as int);
                    lemma_row_major(to as int, p as int, s, region.cells());
                    lemma_row_major(from as int, p as int, s, w * h);
                    assert(0 <= to * s && 0 <= from * s) by (nonlinear_arith)
                        requires
                            0 <= to,
                            0 <= from,
                            0 < s,
                    ;
                }
                let ghost before = *output;
                let at: usize = to * scalar + p;
                output.samples_le[at] = tile[from * scalar + p];
                proof {
                    assert forall|k: int|
                        #![trigger output.samples_le@[k]]
                        0 <= k < output.samples_le@.len() implies output.samples_le@[k]
                        == if tile_sample_written(region, s, k, y as int, x as int, p + 1) {
                        tile@[(region.row(k / s) * w + region.column(k / s)) * s + k % s]
                    } else {
                        original.samples_le@[k]
                    } by {
                        lemma_row_of(k, s, region.cells());
                        lemma_reached_cell(region, k / s);
                        if k != at {
                            assert(output.samples_le@[k] == before.samples_le@[k]);
                        }
                    }
                }
                p += 1;
            }
            let ghost before = *output;
            output.mask[to] = tile[samples + from];
            proof {
                assert forall|k: int|
                    #![trigger output.samples_le@[k]]
                    0 <= k < output.samples_le@.len() implies output.samples_le@[k]
                    == if tile_sample_written(region, s, k, y as int, x + 1, 0) {
                    tile@[(region.row(k / s) * w + region.column(k / s)) * s + k % s]
                } else {
                    original.samples_le@[k]
                } by {
                    lemma_row_of(k, s, region.cells());
                    assert(output.samples_le@[k] == before.samples_le@[k]);
                    assert(tile_sample_written(region, s, k, y as int, x + 1, 0)
                        == tile_sample_written(region, s, k, y as int, x as int, s));
                }
                assert forall|k: int|
                    #![trigger output.mask@[k]]
                    0 <= k < output.mask@.len() implies output.mask@[k] == if tile_mask_written(
                    region,
                    k,
                    y as int,
                    x + 1,
                ) {
                    tile@[w * h * s + region.row(k) * w + region.column(k)]
                } else {
                    original.mask@[k]
                } by {
                    lemma_reached_cell(region, k);
                    if k != to {
                        assert(output.mask@[k] == before.mask@[k]);
                    }
                }
            }
            x += 1;
        }
        proof {
            assert forall|k: int|
                #![trigger output.samples_le@[k]]
                0 <= k < output.samples_le@.len() implies output.samples_le@[k]
                == if tile_sample_written(region, s, k, y + 1, x0 as int, 0) {
                tile@[(region.row(k / s) * w + region.column(k / s)) * s + k % s]
            } else {
                original.samples_le@[k]
            } by {
                lemma_row_of(k, s, region.cells());
                assert(tile_sample_written(region, s, k, y + 1, x0 as int, 0)
                    == tile_sample_written(region, s, k, y as int, x1 as int, 0));
            }
            assert forall|k: int|
                #![trigger output.mask@[k]]
                0 <= k < output.mask@.len() implies output.mask@[k] == if tile_mask_written(
                region,
                k,
                y + 1,
                x0 as int,
            ) {
                tile@[w * h * s + region.row(k) * w + region.column(k)]
            } else {
                original.mask@[k]
            } by {
                assert(tile_mask_written(region, k, y + 1, x0 as int) == tile_mask_written(
                    region,
                    k,
                    y as int,
                    x1 as int,
                ));
            }
        }
        y += 1;
    }
    proof {
        lemma_restore_count(region.columns(), region.rows(), s);
        assert forall|k: int| 0 <= k < output.samples_le@.len() implies #[trigger] region.reaches(
            k / s,
        ) == tile_sample_written(region, s, k, y1 as int, x0 as int, 0) by {
            lemma_row_of(k, s, region.cells());
        }
        assert forall|k: int| 0 <= k < output.mask@.len() implies #[trigger] region.reaches(k)
            == tile_mask_written(region, k, y1 as int, x0 as int) by {}
    }
    (x1 - x0) * (y1 - y0) * (scalar + 1)
}

spec fn tile_sample_written(region: CopyRegion, s: int, k: int, y: int, x: int, p: int) -> bool {
    let cell = k / s;
    &&& region.reaches(cell)
    &&& region.row(cell) < y || region.row(cell) == y && (region.column(cell) < x
        || region.column(cell) == x && k % s < p)
}

spec fn tile_mask_written(region: CopyRegion, k: int, y: int, x: int) -> bool {
    &&& region.reaches(k)
    &&& region.row(k) < y || region.row(k) == y && region.column(k) < x
}

/// The bytes of the window before a row, a column and a byte of its sample are copied.
spec fn copied_so_far(
    tile: Seq<u8>,
    w: int,
    h: int,
    s: int,
    region: CopyRegion,
    original: RawBandWindow,
    output: RawBandWindow,
    y: int,
    x: int,
    p: int,
) -> bool {
    &&& forall|k: int|
        #![trigger output.samples_le@[k]]
        0 <= k < output.samples_le@.len() ==> output.samples_le@[k] == if tile_sample_written(
            region,
            s,
            k,
            y,
            x,
            p,
        ) {
            tile[(region.row(k / s) * w + region.column(k / s)) * s + k % s]
        } else {
            original.samples_le@[k]
        }
    &&& forall|k: int|
        #![trigger output.mask@[k]]
        0 <= k < output.mask@.len() ==> output.mask@[k] == if tile_mask_written(region, k, y, x) {
            tile[w * h * s + region.row(k) * w + region.column(k)]
        } else {
            original.mask@[k]
        }
}

/// The window of `x`, `y`, width and height, where a tile meets it.
pub open spec fn meets(tile: [usize; 4], window: [usize; 4]) -> bool {
    &&& tile[0] < window[0] + window[2]
    &&& window[0] < tile[2]
    &&& tile[1] < window[1] + window[3]
    &&& window[1] < tile[3]
}

/// How the part of a tile in a window is copied.
pub fn window_region(tile: [usize; 4], window: [usize; 4]) -> (r: CopyRegion)
    requires
        tile[0] < tile[2],
        tile[1] < tile[3],
        window[2] > 0,
        window[3] > 0,
        window[0] + window[2] <= usize::MAX,
        window[1] + window[3] <= usize::MAX,
        meets(tile, window),
    ensures
        r.source_ok(tile[2] - tile[0], tile[3] - tile[1]),
        r.target_ok(),
        r.output_shape[0] == window[2],
        r.output_shape[1] == window[3],
        forall|cell: int|
            #![trigger r.reaches(cell)]
            0 <= cell < window[2] * window[3] ==> {
                let x = window[0] + cell % window[2] as int;
                let y = window[1] + cell / window[2] as int;
                &&& r.reaches(cell) == (tile[0] <= x < tile[2] && tile[1] <= y < tile[3])
                &&& r.column(cell) == x - tile[0]
                &&& r.row(cell) == y - tile[1]
            },
{
    let x: usize = window[0];
    let y: usize = window[1];
    let w: usize = window[2];
    let h: usize = window[3];
    let left: usize = if x >= tile[0] {
        x
    } else {
        tile[0]
    };
    let top: usize = if y >= tile[1] {
        y
    } else {
        tile[1]
    };
    let right: usize = if x + w <= tile[2] {
        x + w
    } else {
        tile[2]
    };
    let bottom: usize = if y + h <= tile[3] {
        y + h
    } else {
        tile[3]
    };
    let r = CopyRegion {
        source: [left - tile[0], top - tile[1], right - tile[0], bottom - tile[1]],
        target: [left - x, top - y],
        output_shape: [w, h],
    };
    proof {
        assert forall|cell: int|
            #![trigger r.reaches(cell)]
            0 <= cell < window[2] * window[3] implies {
            let cx = window[0] + cell % window[2] as int;
            let cy = window[1] + cell / window[2] as int;
            &&& r.reaches(cell) == (tile[0] <= cx < tile[2] && tile[1] <= cy < tile[3])
            &&& r.column(cell) == cx - tile[0]
            &&& r.row(cell) == cy - tile[1]
        } by {
            assert(window[2] * window[3] == window[3] * window[2]) by (nonlinear_arith);
            lemma_row_of(cell, window[2] as int, window[3] as int);
        }
    }
    r
}

/// The tile of a record: its width, its height, and bytes of a sample.
pub open spec fn tile_shape(header: &Header, e: Pending) -> (int, int, int) {
    let n = header.raw_metadata.bands@.len() as int;
    (
        e.bounds[2] - e.bounds[0],
        e.bounds[3] - e.bounds[1],
        header.widths()[e.id as int % n],
    )
}

/// An entry that the header and the window admit: an admitted leaf record, the cells of its
/// tile, a part of the window, and an output band of the window's shape.
pub open spec fn entry_ok(
    header: &Header,
    length: int,
    e: Pending,
    window: [usize; 4],
    bands: Seq<RawBandWindow>,
) -> bool {
    let n = header.raw_metadata.bands@.len() as int;
    let node = e.id as int / n;
    let b = box_at(
        header.level_seq(),
        header.chunk_edge as int,
        header.grid.width as int,
        header.grid.height as int,
        node,
    );
    &&& e.wf()
    &&& e.id < header.record_count()
    &&& node < header.leaf_count()
    &&& record_refusal(header, e.id as int, e.record@, length) is None
    &&& e.bounds[0] == b.0 && e.bounds[1] == b.1 && e.bounds[2] == b.2 && e.bounds[3] == b.3
    &&& meets(e.bounds, window)
    &&& e.out_index < bands.len()
    &&& bands[e.out_index as int].mask@.len() == window[2] * window[3]
    &&& bands[e.out_index as int].samples_le@.len() == window[2] * window[3] * tile_shape(
        header,
        e,
    ).2
}

/// The first of the entries that share the payload of entry `i`.
pub open spec fn head_of(grouped: bool, entries: Seq<Pending>, i: int) -> int
    decreases i,
{
    if i <= 0 || !grouped || entries[i].leader() != entries[i - 1].leader() {
        i
    } else {
        head_of(grouped, entries, i - 1)
    }
}

/// The bytes of entry `i` in what a read from `offset` fetched.
pub open spec fn fetched_part(entries: Seq<Pending>, offset: int, fetched: Seq<u8>, i: int) -> Seq<
    u8,
> {
    fetched.subrange(
        entries[i].begin() - offset,
        entries[i].begin() - offset + entries[i].size(),
    )
}

/// The packet that entry `i` is served from.
pub open spec fn packet_at(
    header: &Header,
    entries: Seq<Pending>,
    offset: int,
    fetched: Seq<u8>,
    i: int,
) -> Result<Seq<u8>, Error> {
    let head = head_of(header.grouped_spec(), entries, i);
    packet_of(
        header,
        entries[head].id as int,
        entries[head].record@,
        fetched_part(entries, offset, fetched, head),
    )
}

/// The first packet that is refused, from entry `i` on.
pub open spec fn packets_refusal(
    header: &Header,
    entries: Seq<Pending>,
    offset: int,
    fetched: Seq<u8>,
    i: int,
) -> Option<Error>
    decreases entries.len() - i,
{
    if i < 0 || i >= entries.len() {
        None
    } else {
        match packet_at(header, entries, offset, fetched, i) {
            Err(e) => Some(e),
            Ok(_) => packets_refusal(header, entries, offset, fetched, i + 1),
        }
    }
}

/// Serving an entry: its output band gets the part of its tile that the window has, and the
/// other bands stay as they are.
pub open spec fn served(
    header: &Header,
    e: Pending,
    packet: Seq<u8>,
    window: [usize; 4],
    before: Seq<RawBandWindow>,
    after: Seq<RawBandWindow>,
) -> bool {
    let (w, h, s) = tile_shape(header, e);
    let (leader, count) = header.canonical(e.id as int);
    let tile = tile_bytes(
        packet,
        header.grouped_spec(),
        header.predicted(),
        e.id - leader,
        count,
        w,
        h,
        s,
    );
    let old_band = before[e.out_index as int];
    let new_band = after[e.out_index as int];
    &&& after.len() == before.len()
    &&& forall|b: int| 0 <= b < before.len() && b != e.out_index ==> #[trigger] after[b] == before[b]
    &&& new_band.samples_le@.len() == old_band.samples_le@.len()
    &&& new_band.mask@.len() == old_band.mask@.len()
    &&& forall|k: int|
        #![trigger new_band.samples_le@[k]]
        0 <= k < new_band.samples_le@.len() ==> {
            let x = window[0] + k / s % window[2] as int;
            let y = window[1] + k / s / window[2] as int;
            new_band.samples_le@[k] == if e.bounds[0] <= x < e.bounds[2] && e.bounds[1] <= y
                < e.bounds[3] {
                tile[((y - e.bounds[1]) * w + (x - e.bounds[0])) * s + k % s]
            } else {
                old_band.samples_le@[k]
            }
        }
    &&& forall|k: int|
        #![trigger new_band.mask@[k]]
        0 <= k < new_band.mask@.len() ==> {
            let x = window[0] + k % window[2] as int;
            let y = window[1] + k / window[2] as int;
            new_band.mask@[k] == if e.bounds[0] <= x < e.bounds[2] && e.bounds[1] <= y
                < e.bounds[3] {
                tile[w * h * s + (y - e.bounds[1]) * w + (x - e.bounds[0])]
            } else {
                old_band.mask@[k]
            }
        }
}

/// Entry `i` is served from its packet between state `i` and the next.
pub open spec fn step_at(
    header: &Header,
    entries: Seq<Pending>,
    offset: int,
    fetched: Seq<u8>,
    window: [usize; 4],
    states: Seq<Seq<RawBandWindow>>,
    i: int,
) -> bool {
    &&& packet_at(header, entries, offset, fetched, i) is Ok
    &&& served(
        header,
        entries[i],
        packet_at(header, entries, offset, fetched, i)->Ok_0,
        window,
        states[i],
        states[i + 1],
    )
}

/// Serving the first `n` entries one after the other leads through `states`.
pub open spec fn served_through(
    header: &Header,
    entries: Seq<Pending>,
    offset: int,
    fetched: Seq<u8>,
    window: [usize; 4],
    states: Seq<Seq<RawBandWindow>>,
    n: int,
) -> bool {
    &&& states.len() == n + 1
    &&& forall|i: int|
        0 <= i < n ==> #[trigger] step_at(header, entries, offset, fetched, window, states, i)
}

/// Serve one entry from its packet.
fn serve_entry<C: Cancel>(
    header: &Header,
    e: &Pending,
    packet: &[u8],
    window: [usize; 4],
    output: &mut Vec<RawBandWindow>,
    cancel: &C,
    Ghost(length): Ghost<int>,
) -> (r: Result<usize, Error>)
    requires
        header.shaped(),
        window[2] > 0,
        window[3] > 0,
        window[0] + window[2] <= usize::MAX,
        window[1] + window[3] <= usize::MAX,
        entry_ok(header, length, *e, window, old(output)@),
        packet@.len() == rec_decoded(e.record@),
    ensures
        final(output)@.len() == old(output)@.len(),
        ended(
            cancel,
            r,
            r is Ok && served(header, *e, packet@, window, old(output)@, final(output)@),
        ),
        forall|b: int|
            0 <= b < old(output)@.len() && b != e.out_index ==> #[trigger] final(output)@[b]
                == old(output)@[b],
        final(output)@[e.out_index as int].samples_le@.len() == old(output)@[e.out_index as int].samples_le@.len(),
        final(output)@[e.out_index as int].mask@.len() == old(output)@[e.out_index as int].mask@.len(),
{
    let n: usize = header.bands();
    let (leader, count) = match header.canonical_group(e.id) {
        Ok(g) => g,
        Err(e) => return Err(e),
    };
    let scalar: usize = header.raw_metadata.bands[e.id % n].scalar_type.byte_width();
    let ghost s = scalar as int;
    let ghost w = e.bounds[2] - e.bounds[0];
    let ghost h = e.bounds[3] - e.bounds[1];
    proof {
        lemma_entry_shape(header, length, *e, window, output@);
    }
    let width: usize = e.bounds[2] - e.bounds[0];
    let height: usize = e.bounds[3] - e.bounds[1];
    let region = window_region(e.bounds, window);
    let ghost before = output@;
    let ghost original = output@[e.out_index as int];
    let mask_len: usize = output[e.out_index].mask.len();
    let predicted = same(header.predictor.as_str(), "byte_delta_v1");
    if header.grouped() {
        let r = restore_member_window(
            packet,
            e.id - leader,
            count,
            width,
            height,
            scalar,
            predicted,
            region,
            &mut output[e.out_index],
            cancel,
        );
        proof {
            let band = output@[e.out_index as int];
            assert(restore_refusal(
                packet@.len() as int,
                e.id - leader,
                count as int,
                w,
                h,
                s,
                region,
                original.samples_le@.len() as int,
                original.mask@.len() as int,
            ) is None);
            assert(output@ =~= before.update(e.out_index as int, band));
            if r is Ok {
                restored_is_windowed(
                    packet@,
                    e.id - leader,
                    count as int,
                    w,
                    h,
                    s,
                    predicted,
                    region,
                    original,
                    band,
                    true,
                );
                lemma_windowed_is_served(header, *e, packet@, window, region, before, output@);
            }
        }
        r
    } else {
        let mut tile = vstd::slice::slice_to_vec(packet);
        if predicted {
            match byte_delta(&mut tile, width * height * scalar, width, height, scalar, true, cancel) {
                Ok(_) => {},
                Err(e) => return Err(e),
            }
        } else {
            check_cancel(cancel)?;
        }
        let copied = copy_tile_window(
            tile.as_slice(),
            width,
            height,
            scalar,
            region,
            &mut output[e.out_index],
        );
        proof {
            let band = output@[e.out_index as int];
            assert(output@ =~= before.update(e.out_index as int, band));
            assert(tile@ == tile_bytes(
                packet@,
                false,
                predicted,
                e.id - leader,
                count as int,
                w,
                h,
                s,
            ));
            lemma_windowed_is_served(header, *e, packet@, window, region, before, output@);
        }
        Ok(copied)
    }
}

/// The shape of an admitted entry's tile, and what its packet and region are.
proof fn lemma_entry_shape(
    header: &Header,
    length: int,
    e: Pending,
    window: [usize; 4],
    bands: Seq<RawBandWindow>,
)
    requires
        header.shaped(),
        entry_ok(header, length, e, window, bands),
    ensures
        ({
            let (w, h, s) = tile_shape(header, e);
            let (leader, count) = header.canonical(e.id as int);
            &&& admitted(w, h, s, count)
            &&& rec_decoded(e.record@) == band_bytes(w, h, s) * count
            &&& leader <= e.id < leader + count
            &&& 0 < w * h <= 65536
            &&& 0 < w * h * s <= 524288
            &&& w * h * (s + 1) == w * h * s + w * h
            &&& !header.grouped_spec() ==> count == 1 && rec_decoded(e.record@) == band_bytes(
                w,
                h,
                s,
            )
        }),
{
    let n = header.raw_metadata.bands@.len() as int;
    let id = e.id as int;
    assert(id < (id + 1) * n) by (nonlinear_arith)
        requires
            id >= 0,
            n >= 1,
    ;
    lemma_row_of(id, n, id + 1);
    let node = id / n;
    lemma_leaf_cells(header, node);
    let (w, h, s) = tile_shape(header, e);
    let (leader, count) = header.canonical(id);
    assert(node_cells(header, node) == w * h);
    assert(s == 1 || s == 2 || s == 4 || s == 8);
    if header.grouped_spec() {
        crate::skv_header::groups_divide_the_bands(
            header.widths(),
            header.chunk_edge as int,
            header.band_group as int,
            id % n,
        );
    }
    assert(1 <= count <= 64);
    lemma_plain_bound(w * h, s, count);
    assert(w * h * (s + 1) == w * h * s + w * h) by (nonlinear_arith);
    assert(leaf_refusal(header, id, e.record@, length) is None);
    let b = band_bytes(w, h, s);
    assert(count == 1 ==> b * count == b) by (nonlinear_arith);
}

/// The window of a tile, written by its region, is what serving the entry means.
proof fn lemma_windowed_is_served(
    header: &Header,
    e: Pending,
    packet: Seq<u8>,
    window: [usize; 4],
    region: CopyRegion,
    before: Seq<RawBandWindow>,
    after: Seq<RawBandWindow>,
)
    requires
        ({
            let (w, h, s) = tile_shape(header, e);
            let (leader, count) = header.canonical(e.id as int);
            &&& s > 0
            &&& window[2] > 0
            &&& windowed(
                tile_bytes(
                    packet,
                    header.grouped_spec(),
                    header.predicted(),
                    e.id - leader,
                    count,
                    w,
                    h,
                    s,
                ),
                w,
                h,
                s,
                region,
                before[e.out_index as int],
                after[e.out_index as int],
                true,
            )
            &&& before[e.out_index as int].mask@.len() == window[2] * window[3]
            &&& before[e.out_index as int].samples_le@.len() == window[2] * window[3] * s
        }),
        e.out_index < before.len(),
        after == before.update(e.out_index as int, after[e.out_index as int]),
        forall|cell: int|
            #![trigger region.reaches(cell)]
            0 <= cell < window[2] * window[3] ==> {
                let x = window[0] + cell % window[2] as int;
                let y = window[1] + cell / window[2] as int;
                &&& region.reaches(cell) == (e.bounds[0] <= x < e.bounds[2] && e.bounds[1] <= y
                    < e.bounds[3])
                &&& region.column(cell) == x - e.bounds[0]
                &&& region.row(cell) == y - e.bounds[1]
            },
    ensures
        served(header, e, packet, window, before, after),
{
    let (w, h, s) = tile_shape(header, e);
    let old_band = before[e.out_index as int];
    let new_band = after[e.out_index as int];
    assert forall|k: int| 0 <= k < new_band.samples_le@.len() implies 0 <= #[trigger] (k / s)
        < window[2] * window[3] by {
        lemma_row_of(k, s, window[2] * window[3]);
    }
    assert forall|k: int|
        #![trigger new_band.samples_le@[k]]
        0 <= k < new_band.samples_le@.len() implies region.reaches(k / s) || !region.reaches(
        k / s,
    ) by {
        assert(0 <= k / s < window[2] * window[3]);
    }
}

/// Serve everything that one read fetched. Where every packet is sound, each entry is served
/// in its turn; the first packet that is not is what the read is refused for.
pub fn serve_queue<C: Cancel>(
    header: &Header,
    length: u64,
    queue: &Queue,
    fetched: &[u8],
    window: [usize; 4],
    output: &mut Vec<RawBandWindow>,
    cancel: &C,
) -> (r: Result<(), Error>)
    requires
        header.shaped(),
        window[2] > 0,
        window[3] > 0,
        window[0] + window[2] <= usize::MAX,
        window[1] + window[3] <= usize::MAX,
        queue.wf(queue.length as int),
        fetched@.len() == queue.length,
        forall|i: int|
            0 <= i < queue.pending@.len() ==> entry_ok(
                header,
                length as int,
                #[trigger] queue.pending@[i],
                window,
                old(output)@,
            ),
    ensures
        final(output)@.len() == old(output)@.len(),
        ended(
            cancel,
            r,
            match packets_refusal(header, queue.pending@, queue.offset as int, fetched@, 0) {
                Some(e) => r == Err::<(), Error>(e),
                None => r is Ok && exists|states: Seq<Seq<RawBandWindow>>|
                    #![trigger states.len()]
                    served_through(
                        header,
                        queue.pending@,
                        queue.offset as int,
                        fetched@,
                        window,
                        states,
                        queue.pending@.len() as int,
                    ) && states[0] == old(output)@ && states[queue.pending@.len() as int] == final(output)@,
            },
        ),
{
    let ghost entries = queue.pending@;
    let ghost offset = queue.offset as int;
    let n: usize = queue.pending.len();
    let grouped = header.grouped();
    let ghost mut states: Seq<Seq<RawBandWindow>> = seq![output@];
    proof {
        reveal(all_entries_ok);
        reveal(steps);
        assert(all_entries_ok(header, length as int, entries, window, output@));
        assert(steps(header, entries, offset, fetched@, window, states, 0));
    }
    check_cancel(cancel)?;
    let mut packet: Vec<u8> = Vec::new();
    let mut leader: u64 = 0;
    let mut i: usize = 0;
    while i < n
        invariant
            header.shaped(),
            grouped == header.grouped_spec(),
            window[2] > 0,
            window[3] > 0,
            window[0] + window[2] <= usize::MAX,
            window[1] + window[3] <= usize::MAX,
            queue.wf(queue.length as int),
            entries == queue.pending@,
            offset == queue.offset,
            n == entries.len(),
            fetched@.len() == queue.length,
            i <= n,
            output@.len() == old(output)@.len(),
            all_entries_ok(header, length as int, entries, window, output@),
            steps(header, entries, offset, fetched@, window, states, i as int),
            states.len() == i + 1,
            states[0] == old(output)@,
            states[i as int] == output@,
            packets_refusal(header, entries, offset, fetched@, 0) == packets_refusal(
                header,
                entries,
                offset,
                fetched@,
                i as int,
            ),
            grouped && i > 0 ==> leader == entries[i - 1].leader() && packet_at(
                header,
                entries,
                offset,
                fetched@,
                i - 1,
            ) == Ok::<Seq<u8>, Error>(packet@),
            !cancel.always(),
        decreases n - i,
    {
        let e: &Pending = &queue.pending[i];
        proof {
            lemma_entry_at(header, length as int, entries, window, output@, i as int);
            lemma_entry_room(header, length as int, *e, window, output@);
        }
        let record = e.record.as_slice();
        let own_leader: u64 = u64_at(record, 112);
        if !(grouped && i > 0 && own_leader == leader) {
            proof {
                crate::skv_window::queued_payloads_are_fetched(
                    queue,
                    queue.length as int,
                    i as int,
                );
                assert(head_of(grouped, entries, i as int) == i);
            }
            let at: usize = (u64_at(record, 0) - queue.offset) as usize;
            let size: usize = u32_at(record, 8) as usize;
            let part = vstd::slice::slice_subrange(fetched, at, at + size);
            assert(part@ == fetched_part(entries, offset, fetched@, i as int));
            match decode_packet(header, e.id, record, part, cancel) {
                Ok(bytes) => {
                    packet = bytes;
                },
                Err(e) => return Err(e),
            }
            leader = own_leader;
        } else {
            proof {
                assert(head_of(grouped, entries, i as int) == head_of(grouped, entries, i - 1));
            }
        }
        proof {
            assert(packet_at(header, entries, offset, fetched@, i as int) == Ok::<Seq<u8>, Error>(
                packet@,
            ));
            lemma_packet_length(
                header,
                length as int,
                entries,
                offset,
                fetched@,
                window,
                output@,
                i as int,
            );
        }
        let ghost before = output@;
        match serve_entry(header, e, packet.as_slice(), window, output, cancel, Ghost(length as int)) {
            Ok(_) => {},
            Err(e) => return Err(e),
        }
        proof {
            lemma_step(header, entries, offset, fetched@, window, states, i as int, output@);
            lemma_shapes_kept(
                header,
                length as int,
                entries,
                window,
                i as int,
                packet@,
                before,
                output@,
            );
            states = states.push(output@);
        }
        i += 1;
    }
    proof {
        reveal(steps);
    }
    Ok(())
}

#[verifier::opaque]
spec fn all_entries_ok(
    header: &Header,
    length: int,
    entries: Seq<Pending>,
    window: [usize; 4],
    bands: Seq<RawBandWindow>,
) -> bool {
    forall|k: int|
        0 <= k < entries.len() ==> entry_ok(header, length, #[trigger] entries[k], window, bands)
}

#[verifier::opaque]
spec fn steps(
    header: &Header,
    entries: Seq<Pending>,
    offset: int,
    fetched: Seq<u8>,
    window: [usize; 4],
    states: Seq<Seq<RawBandWindow>>,
    n: int,
) -> bool {
    served_through(header, entries, offset, fetched, window, states, n)
}

proof fn lemma_entry_at(
    header: &Header,
    length: int,
    entries: Seq<Pending>,
    window: [usize; 4],
    bands: Seq<RawBandWindow>,
    i: int,
)
    requires
        all_entries_ok(header, length, entries, window, bands),
        0 <= i < entries.len(),
    ensures
        entry_ok(header, length, entries[i], window, bands),
{
    reveal(all_entries_ok);
}

proof fn lemma_entry_room(
    header: &Header,
    length: int,
    e: Pending,
    window: [usize; 4],
    bands: Seq<RawBandWindow>,
)
    requires
        entry_ok(header, length, e, window, bands),
    ensures
        e.record@.len() == RECORD,
{
}

/// One more entry that was served.
proof fn lemma_step(
    header: &Header,
    entries: Seq<Pending>,
    offset: int,
    fetched: Seq<u8>,
    window: [usize; 4],
    states: Seq<Seq<RawBandWindow>>,
    i: int,
    after: Seq<RawBandWindow>,
)
    requires
        0 <= i < entries.len(),
        steps(header, entries, offset, fetched, window, states, i),
        states.len() == i + 1,
        packet_at(header, entries, offset, fetched, i) is Ok,
        served(
            header,
            entries[i],
            packet_at(header, entries, offset, fetched, i)->Ok_0,
            window,
            states[i],
            after,
        ),
    ensures
        steps(header, entries, offset, fetched, window, states.push(after), i + 1),
{
    reveal(steps);
    let next = states.push(after);
    assert forall|k: int| 0 <= k < i + 1 implies #[trigger] step_at(
        header,
        entries,
        offset,
        fetched,
        window,
        next,
        k,
    ) by {
        if k < i {
            assert(step_at(header, entries, offset, fetched, window, states, k));
            assert(next[k] == states[k] && next[k + 1] == states[k + 1]);
        } else {
            assert(next[k] == states[i] && next[k + 1] == after);
        }
    }
}

/// Serving an entry leaves the shape of every output band.
proof fn lemma_shapes_kept(
    header: &Header,
    length: int,
    entries: Seq<Pending>,
    window: [usize; 4],
    i: int,
    packet: Seq<u8>,
    before: Seq<RawBandWindow>,
    after: Seq<RawBandWindow>,
)
    requires
        0 <= i < entries.len(),
        all_entries_ok(header, length, entries, window, before),
        served(header, entries[i], packet, window, before, after),
    ensures
        all_entries_ok(header, length, entries, window, after),
{
    reveal(all_entries_ok);
    assert forall|k: int| 0 <= k < entries.len() implies entry_ok(
        header,
        length,
        #[trigger] entries[k],
        window,
        after,
    ) by {
        assert(entry_ok(header, length, entries[k], window, before));
        let b = entries[k].out_index as int;
        if b != entries[i].out_index {
            assert(after[b] == before[b]);
        }
    }
}

/// The packet of an admitted entry has the length that its record says.
proof fn lemma_packet_length(
    header: &Header,
    length: int,
    entries: Seq<Pending>,
    offset: int,
    fetched: Seq<u8>,
    window: [usize; 4],
    bands: Seq<RawBandWindow>,
    i: int,
)
    requires
        header.shaped(),
        0 <= i < entries.len(),
        all_entries_ok(header, length, entries, window, bands),
        packet_at(header, entries, offset, fetched, i) is Ok,
    ensures
        packet_at(header, entries, offset, fetched, i)->Ok_0.len() == rec_decoded(
            entries[i].record@,
        ),
    decreases i,
{
    let grouped = header.grouped_spec();
    let head = head_of(grouped, entries, i);
    lemma_head(grouped, entries, i);
    lemma_entry_at(header, length, entries, window, bands, i);
    lemma_entry_at(header, length, entries, window, bands, head);
    if head != i {
        // Members of one group have one leader, so they have one tile and one packet.
        let n = header.raw_metadata.bands@.len() as int;
        lemma_entry_shape(header, length, entries[i], window, bands);
        lemma_entry_shape(header, length, entries[head], window, bands);
        let a = entries[i].id as int;
        let b = entries[head].id as int;
        assert(header.canonical(a).0 == entries[i].leader());
        assert(header.canonical(b).0 == entries[head].leader());
        lemma_same_leader(header, a, b);
    }
}

proof fn lemma_head(grouped: bool, entries: Seq<Pending>, i: int)
    requires
        0 <= i < entries.len(),
    ensures
        0 <= head_of(grouped, entries, i) <= i,
        grouped ==> entries[head_of(grouped, entries, i)].leader() == entries[i].leader(),
    decreases i,
{
    if !(i <= 0 || !grouped || entries[i].leader() != entries[i - 1].leader()) {
        lemma_head(grouped, entries, i - 1);
    }
}

/// Records with one leader belong to one tile, and to bands of one width.
pub(crate) proof fn lemma_same_leader(header: &Header, a: int, b: int)
    requires
        header.shaped(),
        header.grouped_spec(),
        0 <= a,
        0 <= b,
        header.canonical(a).0 == header.canonical(b).0,
    ensures
        ({
            let n = header.raw_metadata.bands@.len() as int;
            &&& a / n == b / n
            &&& header.widths()[a % n] == header.widths()[b % n]
            &&& header.canonical(a).1 == header.canonical(b).1
        }),
{
    let n = header.raw_metadata.bands@.len() as int;
    let widths = header.widths();
    let edge = header.chunk_edge as int;
    let limit = header.band_group as int;
    assert(a < (a + 1) * n && b < (b + 1) * n) by (nonlinear_arith)
        requires
            a >= 0,
            b >= 0,
            n >= 1,
    ;
    lemma_row_of(a, n, a + 1);
    lemma_row_of(b, n, b + 1);
    crate::skv_header::groups_divide_the_bands(widths, edge, limit, a % n);
    crate::skv_header::groups_divide_the_bands(widths, edge, limit, b % n);
    let ga = header.group_spec(a % n);
    let gb = header.group_spec(b % n);
    if a / n != b / n || ga.0 != gb.0 {
        crate::index::lemma_distinct(a / n, ga.0, b / n, gb.0, n);
    }
    crate::skv_header::a_group_fits_its_packet(widths, edge, limit, ga.0);
}

} // verus!
