//! Compiling source chunks into the payloads and records of a serving object.
use vstd::prelude::*;

use crate::bytes::{blank, field};
use crate::cancel::{check_cancel, ended, Cancel};
use crate::codec::{decoded, decoding_undoes_encoding, encode, encoded};
use crate::error::Error;
use crate::index::lemma_row_major;
use crate::layout::box_at;
use crate::skv_delta::{byte_delta, inverse_undoes_forward, transformed};
use crate::skv_directory::{
    leaf_refusal, lemma_leaf_cells, lemma_plain_bound, node_bounds, node_cells, rec_flags, rec_id,
    record_refusal, summary_of, SummaryBits,
};
use crate::skv_group;
use crate::skv_group::{
    a_lane_holds_one_band, admitted, band_bytes, band_index, holds, packet_of as stored_packet,
    MAX_BYTES,
};
use crate::skv_header::{
    a_group_fits_its_packet, group_of, groups_divide_the_bands, CompileOptions, Header, RECORD,
};
use crate::skv_record::{blank_record, write_payload, write_state};
use crate::skv_serve::{lane_band, lemma_lane_band, packet_of, tile_bytes};
use crate::source::RawBandWindow;
use crate::text::same;

verus! {

/// The bytes of a band chunk before it is stored: samples and masks, as differences where
/// the object is predicted.
pub open spec fn chunk_payload(raw: RawBandWindow, w: int, h: int, s: int, predicted: bool) -> Seq<
    u8,
> {
    let bytes = raw.samples_le@ + raw.mask@;
    if predicted {
        transformed(bytes, w, h, s, false)
    } else {
        bytes
    }
}

/// A chunk that a source returned has the bytes of its shape.
pub open spec fn chunk_ok(raw: RawBandWindow, w: int, h: int, s: int) -> bool {
    raw.samples_le@.len() == w * h * s && raw.mask@.len() == w * h
}

/// Lay out one band chunk of a tile of `width` by `height` cells.
pub fn pack_band<C: Cancel>(
    raw: &RawBandWindow,
    width: usize,
    height: usize,
    scalar: usize,
    predicted: bool,
    cancel: &C,
) -> (r: Result<Vec<u8>, Error>)
    requires
        admitted(width as int, height as int, scalar as int, 1),
    ensures
        if !chunk_ok(*raw, width as int, height as int, scalar as int) {
            r == Err::<Vec<u8>, Error>(Error::SourceChunk)
        } else {
            ended(
                cancel,
                r,
                r matches Ok(payload) && payload@ == chunk_payload(
                    *raw,
                    width as int,
                    height as int,
                    scalar as int,
                    predicted,
                ) && payload@.len() == band_bytes(width as int, height as int, scalar as int),
            )
        },
{
    let ghost w = width as int;
    let ghost h = height as int;
    let ghost s = scalar as int;
    proof {
        crate::skv_group::lemma_group_bound(w, h, s, 1);
        assert(w * h * (s + 1) == w * h * s + w * h) by (nonlinear_arith);
    }
    let cells: usize = width * height;
    let samples: usize = cells * scalar;
    if raw.samples_le.len() != samples || raw.mask.len() != cells {
        return Err(Error::SourceChunk);
    }
    let mut payload: Vec<u8> = vstd::slice::slice_to_vec(raw.samples_le.as_slice());
    let mut masks: Vec<u8> = vstd::slice::slice_to_vec(raw.mask.as_slice());
    payload.append(&mut masks);
    assert(payload@ =~= raw.samples_le@ + raw.mask@);
    if predicted {
        match byte_delta(&mut payload, samples, width, height, scalar, false, cancel) {
            Ok(_) => {},
            Err(e) => return Err(e),
        }
    } else {
        check_cancel(cancel)?;
    }
    Ok(payload)
}

/// A stored payload: its bytes, the records that name it, and where the object then ends.
pub struct Stored {
    pub encoded: Vec<u8>,
    pub records: Vec<Vec<u8>>,
    pub end: u64,
}

/// The tile of a leaf node.
pub open spec fn leaf_box(header: &Header, node: int) -> (int, int, int, int) {
    box_at(
        header.level_seq(),
        header.chunk_edge as int,
        header.grid.width as int,
        header.grid.height as int,
        node,
    )
}

/// The width and height of the tile of a leaf node.
pub open spec fn leaf_sides(header: &Header, node: int) -> (int, int) {
    let b = leaf_box(header, node);
    (b.2 - b.0, b.3 - b.1)
}

/// A record names a payload that reads back as `packet`, and every reader of an object of
/// at least `end` bytes admits it.
pub open spec fn reads_back(
    header: &Header,
    id: int,
    record: Seq<u8>,
    encoded: Seq<u8>,
    packet: Seq<u8>,
    position: int,
) -> bool {
    &&& record.len() == RECORD
    &&& field(record, 0, 8) == position
    &&& field(record, 8, 4) == encoded.len()
    &&& packet_of(header, id, record, encoded) == Ok::<Seq<u8>, Error>(packet)
    &&& forall|length: int|
        position + encoded.len() <= length ==> #[trigger] leaf_refusal(header, id, record, length) is None
}

/// The parts of a leaf record that do not depend on its payload.
pub open spec fn leaf_record(record: Seq<u8>, id: int, state: Option<SummaryBits>) -> bool {
    &&& record.len() == RECORD
    &&& rec_id(record) == id
    &&& rec_flags(record) == if state is Some {
        3int
    } else {
        1
    }
    &&& blank(record.subrange(124, 128))
    &&& state is None ==> blank(record.subrange(64, 104))
    &&& state matches Some(bits) ==> summary_of(record) == Some(stored_state(bits))
}

/// A summary as it is stored: the extremes of nothing are zeros.
pub open spec fn stored_state(bits: SummaryBits) -> SummaryBits {
    SummaryBits {
        min: if bits.count == 0 {
            0
        } else {
            bits.min
        },
        max: if bits.count == 0 {
            0
        } else {
            bits.max
        },
        ..bits
    }
}

/// A stored leaf record is one that a reader admits, whatever object it stands in, unless
/// the header promises summaries and it has none.
pub proof fn a_stored_record_is_admitted(
    header: &Header,
    id: int,
    record: Seq<u8>,
    state: Option<SummaryBits>,
    encoded: Seq<u8>,
    packet: Seq<u8>,
    position: int,
    length: int,
)
    requires
        header.shaped(),
        0 <= id,
        id / (header.raw_metadata.bands@.len() as int) < header.leaf_count(),
        leaf_record(record, id, state),
        reads_back(header, id, record, encoded, packet, position),
        position + encoded.len() <= length,
        header.summaries ==> state is Some,
    ensures
        record_refusal(header, id, record, length) is None,
        record.len() == RECORD,
{
    assert(leaf_refusal(header, id, record, length) is None);
}

/// The record of a leaf before its payload is stored.
fn leaf_start(id: usize, state: Option<SummaryBits>) -> (record: Vec<u8>)
    ensures
        leaf_record(record@, id as int, state),
        blank(record@.subrange(112, 128)),
{
    let mut record = blank_record(id, true);
    let ghost before = record@;
    proof {
        assert forall|k: int| 0 <= k < 4 implies #[trigger] before.subrange(124, 128)[k] == 0 by {
            assert(before.subrange(112, 128)[k + 12] == 0);
        }
        assert forall|k: int| 0 <= k < 40 implies #[trigger] before.subrange(64, 104)[k] == 0 by {
            assert(before.subrange(32, 104)[k + 32] == 0);
        }
    }
    if let Some(bits) = state {
        write_state(&mut record, &bits);
        proof {
            assert(record@.subrange(104, 112) =~= before.subrange(104, 112));
            assert(record@.subrange(112, 128) =~= before.subrange(112, 128));
            assert(record@.subrange(124, 128) =~= before.subrange(124, 128));
        }
    }
    record
}

/// Parts of a record that storing a payload does not touch.
proof fn lemma_leaf_kept(a: Seq<u8>, b: Seq<u8>, id: int, state: Option<SummaryBits>)
    requires
        leaf_record(a, id, state),
        b.len() == RECORD,
        forall|k: int|
            0 <= k < RECORD && (28 <= k < 32 || 64 <= k < 112 || 124 <= k < 128) ==> b[k] == a[k],
    ensures
        leaf_record(b, id, state),
{
    assert(b.subrange(104, 112) =~= a.subrange(104, 112));
    assert(b.subrange(28, 32) =~= a.subrange(28, 32));
    assert(b.subrange(124, 128) =~= a.subrange(124, 128));
    assert(b.subrange(64, 104) =~= a.subrange(64, 104));
    assert(b.subrange(64, 72) =~= a.subrange(64, 72));
    assert(b.subrange(72, 80) =~= a.subrange(72, 80));
    assert(b.subrange(80, 88) =~= a.subrange(80, 88));
    assert(b.subrange(88, 96) =~= a.subrange(88, 96));
    assert(b.subrange(96, 104) =~= a.subrange(96, 104));
}

/// What storing `encoded` bytes at `position` is refused for, if it is.
pub open spec fn output_refusal(position: int, encoded: int, max_output: int) -> Option<Error> {
    if position + encoded > u64::MAX {
        Some(Error::OutputOverflow)
    } else if position + encoded > max_output {
        Some(Error::OutputBytes)
    } else {
        None
    }
}

/// Where the object ends behind a payload of `encoded` bytes at `position`.
fn output_end(position: u64, encoded: usize, max_output: u64) -> (r: Result<u64, Error>)
    ensures
        match output_refusal(position as int, encoded as int, max_output as int) {
            Some(e) => r == Err::<u64, Error>(e),
            None => r matches Ok(end) && end == position + encoded,
        },
{
    match position.checked_add(encoded as u64) {
        None => Err(Error::OutputOverflow),
        Some(end) => if end > max_output {
            Err(Error::OutputBytes)
        } else {
            Ok(end)
        },
    }
}

/// Store one independent band chunk at `position`.
pub fn store_band<C: Cancel>(
    header: &Header,
    options: &CompileOptions,
    node: usize,
    band: usize,
    payload: &[u8],
    state: Option<SummaryBits>,
    position: u64,
    cancel: &C,
) -> (r: Result<Stored, Error>)
    requires
        header.shaped(),
        !header.grouped_spec(),
        options.refusal() is None,
        node < header.leaf_count(),
        band < header.raw_metadata.bands@.len(),
        position >= header.data_start(),
        payload@.len() == band_bytes(
            leaf_sides(header, node as int).0,
            leaf_sides(header, node as int).1,
            header.widths()[band as int],
        ),
    ensures
        ({
            let codec = if options.codec@ == "deflate"@ {
                1int
            } else {
                0
            };
            let bytes = encoded(payload@, codec, options.compression_level as int);
            let id = node * header.raw_metadata.bands@.len() + band;
            ended(
                cancel,
                r,
                if bytes.len() > 4194304 {
                    r == Err::<Stored, Error>(Error::EncodedChunk)
                } else {
                    match output_refusal(
                        position as int,
                        bytes.len() as int,
                        options.max_output_bytes as int,
                    ) {
                        Some(e) => r == Err::<Stored, Error>(e),
                        None => {
                            &&& r matches Ok(stored)
                            &&& stored.encoded@ == bytes
                            &&& stored.end == position + bytes.len()
                            &&& stored.records@.len() == 1
                            &&& leaf_record(stored.records@[0]@, id, state)
                            &&& reads_back(
                                header,
                                id,
                                stored.records@[0]@,
                                bytes,
                                payload@,
                                position as int,
                            )
                        },
                    }
                },
            )
        }),
{
    let n: usize = header.bands();
    let codec: u32 = if same(options.codec.as_str(), "deflate") {
        1
    } else {
        0
    };
    let ghost (w, h) = leaf_sides(header, node as int);
    let ghost s = header.widths()[band as int];
    proof {
        lemma_leaf_cells(header, node as int);
        assert(w * h * (s + 1) == w * h * s + w * h) by (nonlinear_arith);
        lemma_plain_bound(w * h, s, 1);
        assert((w * h * s + w * h) * 1 == w * h * s + w * h);
        lemma_row_major(node as int, band as int, n as int, header.leaf_count());
        assert(node * n >= 0) by (nonlinear_arith)
            requires
                node >= 0,
                n >= 0,
        ;
    }
    let bytes = match encode(payload, codec, options.compression_level, cancel) {
        Ok(bytes) => bytes,
        Err(e) => return Err(e),
    };
    if bytes.len() > 4194304 {
        return Err(Error::EncodedChunk);
    }
    let end: u64 = match output_end(position, bytes.len(), options.max_output_bytes) {
        Ok(end) => end,
        Err(e) => return Err(e),
    };
    let id: usize = node * n + band;
    let scalar: usize = header.raw_metadata.bands[band].scalar_type.byte_width();
    let tile = node_bounds(header, node);
    let samples: usize = (tile[2] - tile[0]) * (tile[3] - tile[1]) * scalar;
    let mut record = leaf_start(id, state);
    let ghost before = record@;
    write_payload(
        &mut record,
        header,
        id,
        position,
        bytes.as_slice(),
        payload.len() as u32,
        samples as u64,
        codec,
    );
    proof {
        lemma_leaf_kept(before, record@, id as int, state);
        assert(record@.subrange(112, 128) =~= before.subrange(112, 128));
        decoding_undoes_encoding(payload@, codec as int, bytes@);
        assert(header.canonical(id as int) == (id as int, 1int));
        assert(node_cells(header, node as int) == w * h);
    }
    let mut records: Vec<Vec<u8>> = Vec::new();
    records.push(record);
    Ok(Stored { encoded: bytes, records, end })
}

/// The packet of a group: the bands side by side in each lane position.
pub open spec fn group_packet(
    payloads: Seq<Vec<u8>>,
    w: int,
    h: int,
    s: int,
    planes: bool,
) -> Seq<u8> {
    let count = payloads.len() as int;
    Seq::new(
        (band_bytes(w, h, s) * count) as nat,
        |i: int| payloads[i % count]@[band_index(planes, w, h, s, i / count)],
    )
}

/// A group of a leaf has one sample type, fits a packet, and each of its records leads to it.
pub(crate) proof fn lemma_group_shape(header: &Header, node: int, first: int)
    requires
        header.shaped(),
        header.grouped_spec(),
        0 <= node < header.leaf_count(),
        0 <= first < header.raw_metadata.bands@.len(),
        header.group_spec(first).0 == first,
    ensures
        ({
            let n = header.raw_metadata.bands@.len() as int;
            let count = header.group_spec(first).1;
            let (w, h) = leaf_sides(header, node);
            let s = header.widths()[first];
            &&& 1 <= count <= 64
            &&& first + count <= n
            &&& admitted(w, h, s, count)
            &&& s == 1 || s == 2 || s == 4 || s == 8
            &&& band_bytes(w, h, s) == w * h * s + w * h
            &&& node_cells(header, node) == w * h
            &&& 0 < w * h <= 65536
            &&& forall|m: int|
                #![trigger header.canonical(node * n + first + m)]
                0 <= m < count ==> header.canonical(node * n + first + m) == (
                    node * n + first,
                    count,
                ) && header.widths()[first + m] == s && (node * n + first + m) / n == node && (node
                    * n + first + m) % n == first + m
        }),
{
    let n = header.raw_metadata.bands@.len() as int;
    let edge = header.chunk_edge as int;
    let group = header.band_group as int;
    let widths = header.widths();
    let count = header.group_spec(first).1;
    let (w, h) = leaf_sides(header, node);
    let s = widths[first];
    groups_divide_the_bands(widths, edge, group, first);
    a_group_fits_its_packet(widths, edge, group, first);
    lemma_leaf_cells(header, node);
    lemma_smaller_fits(w, h, edge, s, count);
    assert(w * h * (s + 1) == w * h * s + w * h) by (nonlinear_arith);
    assert forall|m: int|
        #![trigger header.canonical(node * n + first + m)]
        0 <= m < count implies header.canonical(node * n + first + m) == (node * n + first, count)
        && widths[first + m] == s && (node * n + first + m) / n == node && (node * n + first + m)
        % n == first + m by {
        vstd::arithmetic::div_mod::lemma_fundamental_div_mod_converse(
            node * n + first + m,
            n,
            node,
            first + m,
        );
        assert(group_of(widths, edge, group, 0, first + m) == group_of(
            widths,
            edge,
            group,
            0,
            first,
        ));
    }
}

proof fn lemma_smaller_fits(w: int, h: int, edge: int, s: int, count: int)
    requires
        admitted(edge, edge, s, count),
        0 < w <= edge,
        0 < h <= edge,
    ensures
        admitted(w, h, s, count),
{
    assert(w * h * (s + 1) * count <= edge * edge * (s + 1) * count) by (nonlinear_arith)
        requires
            0 < w <= edge,
            0 < h <= edge,
            s >= 0,
            count >= 0,
    ;
}

/// Put the bands of a group into one packet.
fn fill_packet<C: Cancel>(
    payloads: &Vec<Vec<u8>>,
    width: usize,
    height: usize,
    scalar: usize,
    planes: bool,
    cancel: &C,
) -> (r: Result<Vec<u8>, Error>)
    requires
        1 <= payloads@.len() <= 64,
        admitted(width as int, height as int, scalar as int, payloads@.len() as int),
        forall|m: int|
            0 <= m < payloads@.len() ==> (#[trigger] payloads@[m])@.len() == band_bytes(
                width as int,
                height as int,
                scalar as int,
            ),
    ensures
        ended(
            cancel,
            r,
            r matches Ok(packet) && packet@ == group_packet(
                payloads@,
                width as int,
                height as int,
                scalar as int,
                planes,
            ),
        ),
{
    let count: usize = payloads.len();
    let ghost w = width as int;
    let ghost h = height as int;
    let ghost s = scalar as int;
    let ghost c = count as int;
    proof {
        skv_group::lemma_group_bound(w, h, s, c);
        assert(w * h * (s + 1) == w * h * s + w * h) by (nonlinear_arith);
        assert(band_bytes(w, h, s) * c >= band_bytes(w, h, s)) by (nonlinear_arith)
            requires
                c >= 1,
                band_bytes(w, h, s) >= 0,
        ;
    }
    let bytes: usize = width * height * scalar + width * height;
    let mut packet: Vec<u8> = vec![0; bytes * count];
    let mut m: usize = 0;
    while m < count
        invariant
            m <= count,
            count == payloads@.len(),
            w == width,
            h == height,
            s == scalar,
            c == count,
            cancel.always() ==> m == 0,
            1 <= count <= 64,
            admitted(w, h, s, c),
            packet@.len() == band_bytes(w, h, s) * c,
            forall|k: int|
                0 <= k < payloads@.len() ==> (#[trigger] payloads@[k])@.len() == band_bytes(
                    w,
                    h,
                    s,
                ),
            forall|k: int|
                0 <= k < m ==> holds(packet@, (#[trigger] payloads@[k])@, k, c, w, h, s, planes),
        decreases count - m,
    {
        let ghost before = packet@;
        match skv_group::insert(
            packet.as_mut_slice(),
            payloads[m].as_slice(),
            m,
            count,
            width,
            height,
            scalar,
            planes,
            cancel,
        ) {
            Ok(()) => {},
            Err(e) => return Err(e),
        }
        proof {
            assert forall|k: int| 0 <= k < m + 1 implies holds(
                packet@,
                (#[trigger] payloads@[k])@,
                k,
                c,
                w,
                h,
                s,
                planes,
            ) by {
                if k < m {
                    skv_group::insertion_keeps_the_other_bands(
                        before,
                        packet@,
                        payloads@[k]@,
                        k,
                        m as int,
                        c,
                        w,
                        h,
                        s,
                        planes,
                    );
                }
            }
        }
        m += 1;
    }
    proof {
        let wanted = group_packet(payloads@, w, h, s, planes);
        assert forall|i: int| 0 <= i < packet@.len() implies packet@[i] == wanted[i] by {
            let k = i % c;
            let q = i / c;
            vstd::arithmetic::div_mod::lemma_fundamental_div_mod(i, c);
            assert(q * c + k == i && 0 <= k < c && 0 <= q < band_bytes(w, h, s)) by (
                nonlinear_arith)
                requires
                    i == c * q + k,
                    0 <= k < c,
                    0 <= i < band_bytes(w, h, s) * c,
                    c >= 1,
            ;
            assert(holds(packet@, payloads@[k]@, k, c, w, h, s, planes));
            assert(skv_group::lane(packet@, k, c, q) == payloads@[k]@[band_index(
                planes,
                w,
                h,
                s,
                q,
            )]);
        }
        assert(packet@ =~= wanted);
    }
    Ok(packet)
}

/// Store the bands of one group of a leaf as one packet at `position`.
pub fn store_group<C: Cancel>(
    header: &Header,
    options: &CompileOptions,
    node: usize,
    first: usize,
    payloads: &Vec<Vec<u8>>,
    states: &Vec<Option<SummaryBits>>,
    position: u64,
    cancel: &C,
) -> (r: Result<Stored, Error>)
    requires
        header.shaped(),
        header.grouped_spec(),
        options.refusal() is None,
        node < header.leaf_count(),
        first < header.raw_metadata.bands@.len(),
        header.group_spec(first as int).0 == first,
        position >= header.data_start(),
        payloads@.len() == header.group_spec(first as int).1,
        states@.len() == payloads@.len(),
        forall|m: int|
            0 <= m < payloads@.len() ==> (#[trigger] payloads@[m])@.len() == band_bytes(
                leaf_sides(header, node as int).0,
                leaf_sides(header, node as int).1,
                header.widths()[first as int],
            ),
    ensures
        ({
            let codec = if options.codec@ == "deflate"@ {
                1int
            } else {
                0
            };
            let (w, h) = leaf_sides(header, node as int);
            let s = header.widths()[first as int];
            let packet = group_packet(payloads@, w, h, s, header.predicted());
            let bytes = stored_packet(packet, codec, options.compression_level as int).0;
            let leader = node * header.raw_metadata.bands@.len() + first;
            ended(
                cancel,
                r,
                match output_refusal(
                    position as int,
                    bytes.len() as int,
                    options.max_output_bytes as int,
                ) {
                    Some(e) => r == Err::<Stored, Error>(e),
                    None => {
                        &&& r matches Ok(stored)
                        &&& stored.encoded@ == bytes
                        &&& stored.end == position + bytes.len()
                        &&& stored.records@.len() == payloads@.len()
                        &&& forall|m: int|
                            0 <= m < payloads@.len() ==> leaf_record(
                                (#[trigger] stored.records@[m])@,
                                leader + m,
                                states@[m],
                            )
                        &&& forall|m: int|
                            0 <= m < payloads@.len() ==> reads_back(
                                header,
                                leader + m,
                                (#[trigger] stored.records@[m])@,
                                bytes,
                                packet,
                                position as int,
                            )
                    },
                },
            )
        }),
{
    let n: usize = header.bands();
    let count: usize = payloads.len();
    let codec: u32 = if same(options.codec.as_str(), "deflate") {
        1
    } else {
        0
    };
    let ghost (w, h) = leaf_sides(header, node as int);
    let ghost s = header.widths()[first as int];
    proof {
        lemma_group_shape(header, node as int, first as int);
        lemma_leaf_cells(header, node as int);
        skv_group::lemma_group_bound(w, h, s, count as int);
        lemma_plain_bound(w * h, s, count as int);
    }
    let tile = node_bounds(header, node);
    let width: usize = tile[2] - tile[0];
    let height: usize = tile[3] - tile[1];
    let scalar: usize = header.raw_metadata.bands[first].scalar_type.byte_width();
    let predicted = same(header.predictor.as_str(), "byte_delta_v1");
    let packet = match fill_packet(payloads, width, height, scalar, predicted, cancel) {
        Ok(packet) => packet,
        Err(e) => return Err(e),
    };
    let (bytes, stored_codec) = match skv_group::encode(
        packet.as_slice(),
        codec,
        options.compression_level,
        cancel,
    ) {
        Ok(found) => found,
        Err(e) => return Err(e),
    };
    let end: u64 = match output_end(position, bytes.len(), options.max_output_bytes) {
        Ok(end) => end,
        Err(e) => return Err(e),
    };
    let samples: usize = width * height * scalar;
    let ghost nb = n as int;
    proof {
        lemma_row_major(node as int, first as int, nb, header.leaf_count());
        assert(node * nb >= 0) by (nonlinear_arith)
            requires
                node >= 0,
                nb >= 0,
        ;
    }
    let leader: usize = node * n + first;
    let mut records: Vec<Vec<u8>> = Vec::new();
    let mut m: usize = 0;
    while m < count
        invariant
            m <= count,
            count == payloads@.len(),
            states@.len() == count,
            header.shaped(),
            header.grouped_spec(),
            n == header.raw_metadata.bands@.len(),
            node < header.leaf_count(),
            first + count <= n,
            leader == node * n + first,
            leader + count <= usize::MAX,
            header.group_spec(first as int) == (first as int, count as int),
            (w, h) == leaf_sides(header, node as int),
            s == header.widths()[first as int],
            header.group_spec(first as int).0 == first,
            first < n,
            packet@.len() == band_bytes(w, h, s) * count,
            packet@.len() <= MAX_BYTES,
            samples == w * h * s,
            0 < bytes@.len() <= packet@.len(),
            stored_codec <= 1,
            stored_codec == 0 ==> bytes@.len() == packet@.len(),
            decoded(bytes@, stored_codec as int, packet@.len() as int) == Ok::<Seq<u8>, Error>(
                packet@,
            ),
            position >= header.data_start(),
            records@.len() == m,
            forall|k: int|
                0 <= k < m ==> leaf_record((#[trigger] records@[k])@, leader + k, states@[k]),
            forall|k: int|
                0 <= k < m ==> reads_back(
                    header,
                    leader + k,
                    (#[trigger] records@[k])@,
                    bytes@,
                    packet@,
                    position as int,
                ),
        decreases count - m,
    {
        let id: usize = leader + m;
        let mut record = leaf_start(id, states[m]);
        let ghost before = record@;
        write_payload(
            &mut record,
            header,
            id,
            position,
            bytes.as_slice(),
            packet.len() as u32,
            samples as u64,
            stored_codec,
        );
        proof {
            lemma_group_shape(header, node as int, first as int);
            lemma_leaf_kept(before, record@, id as int, states@[m as int]);
            assert(header.canonical(node * (n as int) + first + m) == (leader as int, count as int));
            assert((w * h * s + w * h) * count == band_bytes(w, h, s) * count);
        }
        records.push(record);
        m += 1;
    }
    Ok(Stored { encoded: bytes, records, end })
}

/// The packet of the payloads of a group.
pub open spec fn lane_packet(
    payloads: Seq<Seq<u8>>,
    w: int,
    h: int,
    s: int,
    planes: bool,
) -> Seq<u8> {
    let count = payloads.len() as int;
    Seq::new(
        (band_bytes(w, h, s) * count) as nat,
        |i: int| payloads[i % count][band_index(planes, w, h, s, i / count)],
    )
}

/// Reading gives back what was packed: the samples and masks of every band of a packet.
pub proof fn a_packet_reads_back(
    payloads: Seq<Seq<u8>>,
    raw: RawBandWindow,
    member: int,
    w: int,
    h: int,
    s: int,
    predicted: bool,
)
    requires
        admitted(w, h, s, payloads.len() as int),
        0 <= member < payloads.len(),
        chunk_ok(raw, w, h, s),
        payloads[member] == chunk_payload(raw, w, h, s, predicted),
    ensures
        tile_bytes(
            lane_packet(payloads, w, h, s, predicted),
            true,
            predicted,
            member,
            payloads.len() as int,
            w,
            h,
            s,
        ) == raw.samples_le@ + raw.mask@,
{
    let count = payloads.len() as int;
    let packet = lane_packet(payloads, w, h, s, predicted);
    let band = payloads[member];
    let bytes = raw.samples_le@ + raw.mask@;
    assert(w * h * (s + 1) == w * h * s + w * h) by (nonlinear_arith);
    if predicted {
        lemma_transformed_len(bytes, w, h, s);
        inverse_undoes_forward(bytes, w, h, s);
    }
    assert(band.len() == band_bytes(w, h, s));
    assert(holds(packet, band, member, count, w, h, s, predicted)) by {
        assert forall|q: int|
            #![trigger skv_group::lane(packet, member, count, q)]
            0 <= q < band_bytes(w, h, s) implies skv_group::lane(packet, member, count, q)
            == band[band_index(predicted, w, h, s, q)] by {
            lemma_row_major(q, member, count, band_bytes(w, h, s));
            vstd::arithmetic::div_mod::lemma_fundamental_div_mod_converse(
                q * count + member,
                count,
                q,
                member,
            );
        }
    }
    lemma_lane_band(packet, member, count, w, h, s, predicted);
    a_lane_holds_one_band(
        packet,
        lane_band(packet, member, count, w, h, s, predicted),
        band,
        member,
        count,
        w,
        h,
        s,
        predicted,
    );
}

/// Reading gives back what compiling wrote: the samples and masks of every band of a chunk.
pub proof fn a_group_reads_back(
    payloads: Seq<Vec<u8>>,
    raw: RawBandWindow,
    member: int,
    w: int,
    h: int,
    s: int,
    predicted: bool,
)
    requires
        admitted(w, h, s, payloads.len() as int),
        0 <= member < payloads.len(),
        chunk_ok(raw, w, h, s),
        payloads[member]@ == chunk_payload(raw, w, h, s, predicted),
    ensures
        tile_bytes(
            group_packet(payloads, w, h, s, predicted),
            true,
            predicted,
            member,
            payloads.len() as int,
            w,
            h,
            s,
        ) == raw.samples_le@ + raw.mask@,
{
    let bands = payloads.map_values(|v: Vec<u8>| v@);
    assert(group_packet(payloads, w, h, s, predicted) =~= lane_packet(bands, w, h, s, predicted)) by {
        let count = payloads.len() as int;
        assert forall|i: int|
            0 <= i < band_bytes(w, h, s) * count implies #[trigger] group_packet(
            payloads,
            w,
            h,
            s,
            predicted,
        )[i] == lane_packet(bands, w, h, s, predicted)[i] by {
            vstd::arithmetic::div_mod::lemma_mod_bound(i, count);
        }
    }
    a_packet_reads_back(bands, raw, member, w, h, s, predicted);
}

proof fn lemma_transformed_len(bytes: Seq<u8>, w: int, h: int, s: int)
    ensures
        transformed(bytes, w, h, s, false).len() == bytes.len(),
{
}

/// The same, of a chunk that is stored by itself.
pub proof fn a_band_reads_back(raw: RawBandWindow, w: int, h: int, s: int, predicted: bool)
    requires
        admitted(w, h, s, 1),
        chunk_ok(raw, w, h, s),
    ensures
        tile_bytes(chunk_payload(raw, w, h, s, predicted), false, predicted, 0, 1, w, h, s)
            == raw.samples_le@ + raw.mask@,
{
    let bytes = raw.samples_le@ + raw.mask@;
    assert(w * h * (s + 1) == w * h * s + w * h) by (nonlinear_arith);
    if predicted {
        inverse_undoes_forward(bytes, w, h, s);
    }
}

} // verus!
