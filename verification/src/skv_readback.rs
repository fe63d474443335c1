//! What a window of a serving object holds: the samples that its chunks were made of.
use vstd::prelude::*;

use crate::index::lemma_row_of;
use crate::layout::box_at;
use crate::skv_compile::{
    a_band_reads_back, a_packet_reads_back, chunk_ok, chunk_payload, lane_packet,
};
use crate::skv_group::admitted;
use crate::skv_header::Header;
use crate::skv_serve::{packet_at, served, served_through, step_at, tile_bytes, tile_shape};
use crate::skv_tiles::{a_window_lies_in_its_tiles, holds_cell, tiles_of, window_inside};
use crate::skv_window::Pending;
use crate::source::RawBandWindow;

verus! {

/// The original samples of a raster: the bytes of a sample by band, column, row and place, and
/// the masks by band, column and row.
pub ghost struct Original {
    pub samples: spec_fn(int, int, int, int) -> u8,
    pub masks: spec_fn(int, int, int) -> u8,
}

/// The stored band of a record.
pub open spec fn band_of(header: &Header, e: Pending) -> int {
    e.id as int % header.raw_metadata.bands@.len() as int
}

/// An entry is of a leaf, has its box, and goes to one of `bands` outputs.
pub open spec fn placed(header: &Header, e: Pending, bands: int) -> bool {
    let node = e.id as int / header.raw_metadata.bands@.len() as int;
    let b = box_at(
        header.level_seq(),
        header.chunk_edge as int,
        header.grid.width as int,
        header.grid.height as int,
        node,
    );
    &&& 0 <= node < header.leaf_count()
    &&& e.bounds[0] == b.0 && e.bounds[1] == b.1 && e.bounds[2] == b.2 && e.bounds[3] == b.3
    &&& e.out_index < bands
}

/// A chunk of a band holds the original samples of the cells of its tile.
pub open spec fn chunk_of(
    original: Original,
    band: int,
    bounds: [usize; 4],
    s: int,
    chunk: RawBandWindow,
) -> bool {
    let w = bounds[2] - bounds[0];
    &&& forall|x: int, y: int, p: int|
        bounds[0] <= x < bounds[2] && bounds[1] <= y < bounds[3] && 0 <= p < s
            ==> chunk.samples_le@[((y - bounds[1]) * w + (x - bounds[0])) * s + p] == #[trigger] (
        original.samples)(band, x, y, p)
    &&& forall|x: int, y: int|
        bounds[0] <= x < bounds[2] && bounds[1] <= y < bounds[3] ==> chunk.mask@[(y - bounds[1]) * w
            + (x - bounds[0])] == #[trigger] (original.masks)(band, x, y)
}

/// An entry's packet holds the original samples of its tile.
pub open spec fn carries(header: &Header, original: Original, e: Pending, packet: Seq<u8>) -> bool {
    let (w, h, s) = tile_shape(header, e);
    let (leader, count) = header.canonical(e.id as int);
    let tile = tile_bytes(
        packet,
        header.grouped_spec(),
        header.predicted(),
        e.id - leader,
        count,
        w,
        h,
        s,
    );
    &&& forall|x: int, y: int, p: int|
        e.bounds[0] <= x < e.bounds[2] && e.bounds[1] <= y < e.bounds[3] && 0 <= p < s
            ==> tile[((y - e.bounds[1]) * w + (x - e.bounds[0])) * s + p] == #[trigger] (
        original.samples)(band_of(header, e), x, y, p)
    &&& forall|x: int, y: int|
        e.bounds[0] <= x < e.bounds[2] && e.bounds[1] <= y < e.bounds[3] ==> tile[w * h * s + (y
            - e.bounds[1]) * w + (x - e.bounds[0])] == #[trigger] (original.masks)(
            band_of(header, e),
            x,
            y,
        )
}

proof fn lemma_cell(x: int, y: int, w: int, h: int, s: int, p: int)
    requires
        0 <= x < w,
        0 <= y < h,
        0 <= p < s,
    ensures
        0 <= (y * w + x) * s + p < w * h * s,
        0 <= y * w + x < w * h,
{
    crate::index::lemma_row_major(y, x, w, h);
    assert(h * w == w * h) by (nonlinear_arith);
    crate::index::lemma_row_major(y * w + x, p, s, w * h);
}

/// The bytes of a chunk give its samples and its masks back.
proof fn lemma_bytes_of(header: &Header, original: Original, e: Pending, chunk: RawBandWindow, packet: Seq<u8>)
    requires
        ({
            let (w, h, s) = tile_shape(header, e);
            let (leader, count) = header.canonical(e.id as int);
            &&& s > 0
            &&& chunk_ok(chunk, w, h, s)
            &&& chunk_of(original, band_of(header, e), e.bounds, s, chunk)
            &&& tile_bytes(
                packet,
                header.grouped_spec(),
                header.predicted(),
                e.id - leader,
                count,
                w,
                h,
                s,
            ) == chunk.samples_le@ + chunk.mask@
        }),
    ensures
        carries(header, original, e, packet),
{
    let (w, h, s) = tile_shape(header, e);
    let band = band_of(header, e);
    let bytes = chunk.samples_le@ + chunk.mask@;
    assert forall|x: int, y: int, p: int|
        e.bounds[0] <= x < e.bounds[2] && e.bounds[1] <= y < e.bounds[3] && 0 <= p
            < s implies bytes[((y - e.bounds[1]) * w + (x - e.bounds[0])) * s + p] == #[trigger] (
    original.samples)(band, x, y, p) by {
        lemma_cell(x - e.bounds[0], y - e.bounds[1], w, h, s, p);
    }
    assert forall|x: int, y: int|
        e.bounds[0] <= x < e.bounds[2] && e.bounds[1] <= y < e.bounds[3] implies bytes[w * h * s + (
    y - e.bounds[1]) * w + (x - e.bounds[0])] == #[trigger] (original.masks)(band, x, y) by {
        lemma_cell(x - e.bounds[0], y - e.bounds[1], w, h, s, 0);
    }
}

/// A chunk that is stored by itself carries the samples that it was made of.
pub proof fn a_stored_chunk_carries_its_samples(
    header: &Header,
    original: Original,
    e: Pending,
    chunk: RawBandWindow,
)
    requires
        !header.grouped_spec(),
        ({
            let (w, h, s) = tile_shape(header, e);
            &&& admitted(w, h, s, 1)
            &&& chunk_ok(chunk, w, h, s)
            &&& chunk_of(original, band_of(header, e), e.bounds, s, chunk)
        }),
    ensures
        ({
            let (w, h, s) = tile_shape(header, e);
            carries(header, original, e, chunk_payload(chunk, w, h, s, header.predicted()))
        }),
{
    let (w, h, s) = tile_shape(header, e);
    let payload = chunk_payload(chunk, w, h, s, header.predicted());
    a_band_reads_back(chunk, w, h, s, header.predicted());
    lemma_bytes_of(header, original, e, chunk, payload);
}

/// A group carries the samples that each of its members was made of.
pub proof fn a_stored_group_carries_its_samples(
    header: &Header,
    original: Original,
    e: Pending,
    chunk: RawBandWindow,
    payloads: Seq<Seq<u8>>,
)
    requires
        header.grouped_spec(),
        ({
            let (w, h, s) = tile_shape(header, e);
            let (leader, count) = header.canonical(e.id as int);
            &&& admitted(w, h, s, count)
            &&& payloads.len() == count
            &&& 0 <= e.id - leader < count
            &&& payloads[e.id - leader] == chunk_payload(chunk, w, h, s, header.predicted())
            &&& chunk_ok(chunk, w, h, s)
            &&& chunk_of(original, band_of(header, e), e.bounds, s, chunk)
        }),
    ensures
        ({
            let (w, h, s) = tile_shape(header, e);
            carries(header, original, e, lane_packet(payloads, w, h, s, header.predicted()))
        }),
{
    let (w, h, s) = tile_shape(header, e);
    let (leader, count) = header.canonical(e.id as int);
    a_packet_reads_back(payloads, chunk, e.id - leader, w, h, s, header.predicted());
    lemma_bytes_of(
        header,
        original,
        e,
        chunk,
        lane_packet(payloads, w, h, s, header.predicted()),
    );
}

/// The entries are served one after the other, each from its packet.
pub open spec fn chained(
    header: &Header,
    entries: Seq<Pending>,
    packets: Seq<Seq<u8>>,
    window: [usize; 4],
    states: Seq<Seq<RawBandWindow>>,
) -> bool {
    &&& packets.len() == entries.len()
    &&& states.len() == entries.len() + 1
    &&& forall|i: int|
        0 <= i < entries.len() ==> served(
            header,
            #[trigger] entries[i],
            packets[i],
            window,
            states[i],
            states[i + 1],
        )
}

/// What a queue is served through is such a chain, of the packets that were fetched for it.
pub proof fn a_queue_is_served_in_a_chain(
    header: &Header,
    entries: Seq<Pending>,
    offset: int,
    fetched: Seq<u8>,
    window: [usize; 4],
    states: Seq<Seq<RawBandWindow>>,
)
    requires
        served_through(header, entries, offset, fetched, window, states, entries.len() as int),
    ensures
        chained(
            header,
            entries,
            Seq::new(
                entries.len(),
                |i: int| packet_at(header, entries, offset, fetched, i)->Ok_0,
            ),
            window,
            states,
        ),
{
    assert forall|i: int| 0 <= i < entries.len() implies served(
        header,
        #[trigger] entries[i],
        packet_at(header, entries, offset, fetched, i)->Ok_0,
        window,
        states[i],
        states[i + 1],
    ) by {
        assert(step_at(header, entries, offset, fetched, window, states, i));
    }
}

/// Two chains that meet are one.
pub proof fn chains_join(
    header: &Header,
    first: Seq<Pending>,
    first_packets: Seq<Seq<u8>>,
    window: [usize; 4],
    first_states: Seq<Seq<RawBandWindow>>,
    second: Seq<Pending>,
    second_packets: Seq<Seq<u8>>,
    second_states: Seq<Seq<RawBandWindow>>,
)
    requires
        chained(header, first, first_packets, window, first_states),
        chained(header, second, second_packets, window, second_states),
        first_states.last() == second_states[0],
    ensures
        chained(
            header,
            first + second,
            first_packets + second_packets,
            window,
            first_states + second_states.drop_first(),
        ),
{
    let entries = first + second;
    let packets = first_packets + second_packets;
    let states = first_states + second_states.drop_first();
    assert forall|i: int| 0 <= i < entries.len() implies served(
        header,
        #[trigger] entries[i],
        packets[i],
        window,
        states[i],
        states[i + 1],
    ) by {
        if i < first.len() {
            assert(served(header, first[i], first_packets[i], window, first_states[i], first_states[i + 1]));
        } else {
            let k = i - first.len();
            assert(served(
                header,
                second[k],
                second_packets[k],
                window,
                second_states[k],
                second_states[k + 1],
            ));
            if k == 0 {
                assert(states[i] == first_states.last());
            }
        }
    }
}

/// Some entry brings a band of a tile to an output.
pub open spec fn brings(header: &Header, entries: Seq<Pending>, out: int, tile: int, band: int) -> bool {
    exists|j: int|
        0 <= j < entries.len() && (#[trigger] entries[j]).out_index == out && entries[j].id == tile
            * header.raw_metadata.bands@.len() + band
}

/// The entries of a read: for every output and every tile that the window touches, the record
/// of the band that the output is of.
pub open spec fn gathered(
    header: &Header,
    window: [usize; 4],
    bands: Seq<int>,
    entries: Seq<Pending>,
) -> bool {
    &&& forall|b: int| 0 <= b < bands.len() ==> 0 <= #[trigger] bands[b] < header.raw_metadata.bands@.len()
    &&& forall|i: int|
        0 <= i < entries.len() ==> placed(header, #[trigger] entries[i], bands.len() as int)
            && band_of(header, entries[i]) == bands[entries[i].out_index as int]
    &&& forall|b: int, t: int|
        0 <= b < bands.len() && 0 <= t < tiles_of(header, window).len() ==> brings(
            header,
            entries,
            b,
            #[trigger] tiles_of(header, window)[t],
            #[trigger] bands[b],
        )
}

/// The outputs have room for the window.
pub open spec fn roomy(header: &Header, window: [usize; 4], bands: Seq<int>, outputs: Seq<RawBandWindow>) -> bool {
    &&& outputs.len() == bands.len()
    &&& forall|b: int|
        0 <= b < bands.len() ==> (#[trigger] outputs[b]).mask@.len() == window[2] * window[3]
            && outputs[b].samples_le@.len() == window[2] * window[3] * header.widths()[bands[b]]
}

/// Entry `j` goes to an output and holds a cell.
spec fn reaches(entries: Seq<Pending>, j: int, out: int, x: int, y: int) -> bool {
    &&& entries[j].out_index == out
    &&& entries[j].bounds[0] <= x < entries[j].bounds[2]
    &&& entries[j].bounds[1] <= y < entries[j].bounds[3]
}

/// After `m` entries an output keeps its room, and a byte of a cell that an entry reached is
/// the original's.
proof fn lemma_served(
    header: &Header,
    original: Original,
    window: [usize; 4],
    bands: Seq<int>,
    entries: Seq<Pending>,
    packets: Seq<Seq<u8>>,
    states: Seq<Seq<RawBandWindow>>,
    out: int,
    k: int,
    c: int,
    m: int,
)
    requires
        header.shaped(),
        window_inside(header, window),
        gathered(header, window, bands, entries),
        chained(header, entries, packets, window, states),
        forall|i: int| 0 <= i < entries.len() ==> carries(header, original, #[trigger] entries[i], packets[i]),
        roomy(header, window, bands, states[0]),
        0 <= out < bands.len(),
        0 <= k < window[2] * window[3] * header.widths()[bands[out]],
        0 <= c < window[2] * window[3],
        0 <= m <= entries.len(),
    ensures
        roomy(header, window, bands, states[m]),
        ({
            let s = header.widths()[bands[out]];
            let x = window[0] + k / s % window[2] as int;
            let y = window[1] + k / s / window[2] as int;
            (exists|j: int| 0 <= j < m && #[trigger] reaches(entries, j, out, x, y))
                ==> states[m][out].samples_le@[k] == (original.samples)(bands[out], x, y, k % s)
        }),
        ({
            let x = window[0] + c % window[2] as int;
            let y = window[1] + c / window[2] as int;
            (exists|j: int| 0 <= j < m && #[trigger] reaches(entries, j, out, x, y))
                ==> states[m][out].mask@[c] == (original.masks)(bands[out], x, y)
        }),
    decreases m,
{
    if m > 0 {
        lemma_served(header, original, window, bands, entries, packets, states, out, k, c, m - 1);
        let i = m - 1;
        let e = entries[i];
        let s = header.widths()[bands[out]];
        assert(placed(header, e, bands.len() as int));
        assert(served(header, e, packets[i], window, states[i], states[i + 1]));
        assert(carries(header, original, e, packets[i]));
        assert(roomy(header, window, bands, states[m])) by {
            assert forall|b: int| 0 <= b < bands.len() implies (#[trigger] states[m][b]).mask@.len()
                == window[2] * window[3] && states[m][b].samples_le@.len() == window[2] * window[3]
                * header.widths()[bands[b]] by {
                assert(states[i][b].mask@.len() == window[2] * window[3]);
                if b != e.out_index {
                    assert(states[i + 1][b] == states[i][b]);
                }
            }
        }
        assert(s > 0) by {
            assert(header.widths()[bands[out]] > 0);
        }
        lemma_row_of(k, s, window[2] * window[3]);
        let x = window[0] + k / s % window[2] as int;
        let y = window[1] + k / s / window[2] as int;
        let mx = window[0] + c % window[2] as int;
        let my = window[1] + c / window[2] as int;
        if e.out_index == out {
            assert(tile_shape(header, e).2 == s);
            assert(states[m][out].samples_le@.len() == window[2] * window[3] * s);
            let byte = states[m][out].samples_le@[k];
            let mask = states[m][out].mask@[c];
            if reaches(entries, i, out, x, y) {
                assert(byte == (original.samples)(bands[out], x, y, k % s));
            } else {
                assert(byte == states[i][out].samples_le@[k]);
                assert forall|j: int| 0 <= j < m && #[trigger] reaches(entries, j, out, x, y) implies j
                    < i by {}
            }
            if reaches(entries, i, out, mx, my) {
                assert(mask == (original.masks)(bands[out], mx, my));
            } else {
                assert(mask == states[i][out].mask@[c]);
                assert forall|j: int| 0 <= j < m && #[trigger] reaches(entries, j, out, mx, my) implies j
                    < i by {}
            }
        } else {
            assert(states[i + 1][out] == states[i][out]);
            assert(!reaches(entries, i, out, x, y));
            assert(!reaches(entries, i, out, mx, my));
        }
    }
}

/// Some entry brings the cell of a window to an output.
proof fn lemma_reached(
    header: &Header,
    window: [usize; 4],
    bands: Seq<int>,
    entries: Seq<Pending>,
    out: int,
    x: int,
    y: int,
)
    requires
        header.shaped(),
        window_inside(header, window),
        gathered(header, window, bands, entries),
        0 <= out < bands.len(),
        window[0] <= x < window[0] + window[2],
        window[1] <= y < window[1] + window[3],
    ensures
        exists|j: int| 0 <= j < entries.len() && #[trigger] reaches(entries, j, out, x, y),
{
    let n = header.raw_metadata.bands@.len() as int;
    a_window_lies_in_its_tiles(header, window, x, y);
    let tiles = tiles_of(header, window);
    let t = choose|t: int| 0 <= t < tiles.len() && holds_cell(header, #[trigger] tiles[t], x, y);
    assert(brings(header, entries, out, tiles[t], bands[out]));
    let j = choose|j: int|
        0 <= j < entries.len() && (#[trigger] entries[j]).out_index == out && entries[j].id
            == tiles[t] * n + bands[out];
    assert(placed(header, entries[j], bands.len() as int));
    vstd::arithmetic::div_mod::lemma_fundamental_div_mod_converse(
        entries[j].id as int,
        n,
        tiles[t],
        bands[out],
    );
    assert(reaches(entries, j, out, x, y));
}

/// A window reads back: where every packet carries the samples that its chunk was made of, what
/// is served is the original's, sample by sample and mask by mask, whatever the order of the
/// reads and whatever the outputs held before.
pub proof fn a_window_reads_back(
    header: &Header,
    original: Original,
    window: [usize; 4],
    bands: Seq<int>,
    entries: Seq<Pending>,
    packets: Seq<Seq<u8>>,
    states: Seq<Seq<RawBandWindow>>,
)
    requires
        header.shaped(),
        window_inside(header, window),
        gathered(header, window, bands, entries),
        chained(header, entries, packets, window, states),
        forall|i: int| 0 <= i < entries.len() ==> carries(header, original, #[trigger] entries[i], packets[i]),
        roomy(header, window, bands, states[0]),
    ensures
        roomy(header, window, bands, states.last()),
        forall|out: int, k: int|
            #![trigger states.last()[out].samples_le@[k]]
            0 <= out < bands.len() && 0 <= k < states.last()[out].samples_le@.len() ==> {
                let s = header.widths()[bands[out]];
                states.last()[out].samples_le@[k] == (original.samples)(
                    bands[out],
                    window[0] + k / s % window[2] as int,
                    window[1] + k / s / window[2] as int,
                    k % s,
                )
            },
        forall|out: int, c: int|
            #![trigger states.last()[out].mask@[c]]
            0 <= out < bands.len() && 0 <= c < states.last()[out].mask@.len()
                ==> states.last()[out].mask@[c] == (original.masks)(
                bands[out],
                window[0] + c % window[2] as int,
                window[1] + c / window[2] as int,
            ),
{
    let m = entries.len() as int;
    assert(roomy(header, window, bands, states[m])) by {
        lemma_roomy(header, window, bands, entries, packets, states, m);
    }
    assert forall|out: int, k: int|
        #![trigger states[m][out].samples_le@[k]]
        0 <= out < bands.len() && 0 <= k < states[m][out].samples_le@.len() implies {
        let s = header.widths()[bands[out]];
        states[m][out].samples_le@[k] == (original.samples)(
            bands[out],
            window[0] + k / s % window[2] as int,
            window[1] + k / s / window[2] as int,
            k % s,
        )
    } by {
        let s = header.widths()[bands[out]];
        assert(header.widths()[bands[out]] > 0);
        lemma_row_of(k, s, window[2] * window[3]);
        assert(window[2] * window[3] == window[3] * window[2]) by (nonlinear_arith);
        lemma_row_of(k / s, window[2] as int, window[3] as int);
        let x = window[0] + k / s % window[2] as int;
        let y = window[1] + k / s / window[2] as int;
        lemma_reached(header, window, bands, entries, out, x, y);
        lemma_served(header, original, window, bands, entries, packets, states, out, k, k / s, m);
    }
    assert forall|out: int, c: int|
        #![trigger states[m][out].mask@[c]]
        0 <= out < bands.len() && 0 <= c < states[m][out].mask@.len() implies states[m][out].mask@[c]
        == (original.masks)(
        bands[out],
        window[0] + c % window[2] as int,
        window[1] + c / window[2] as int,
    ) by {
        let s = header.widths()[bands[out]];
        assert(header.widths()[bands[out]] > 0);
        assert(window[2] * window[3] == window[3] * window[2]) by (nonlinear_arith);
        lemma_row_of(c, window[2] as int, window[3] as int);
        crate::index::lemma_row_major(c, 0, s, window[2] * window[3]);
        let x = window[0] + c % window[2] as int;
        let y = window[1] + c / window[2] as int;
        lemma_reached(header, window, bands, entries, out, x, y);
        lemma_served(header, original, window, bands, entries, packets, states, out, c * s, c, m);
    }
}

/// Serving keeps the room of the outputs.
proof fn lemma_roomy(
    header: &Header,
    window: [usize; 4],
    bands: Seq<int>,
    entries: Seq<Pending>,
    packets: Seq<Seq<u8>>,
    states: Seq<Seq<RawBandWindow>>,
    m: int,
)
    requires
        chained(header, entries, packets, window, states),
        forall|i: int| 0 <= i < entries.len() ==> placed(header, #[trigger] entries[i], bands.len() as int),
        roomy(header, window, bands, states[0]),
        0 <= m <= entries.len(),
    ensures
        roomy(header, window, bands, states[m]),
    decreases m,
{
    if m > 0 {
        lemma_roomy(header, window, bands, entries, packets, states, m - 1);
        let e = entries[m - 1];
        assert(placed(header, e, bands.len() as int));
        assert(served(header, e, packets[m - 1], window, states[m - 1], states[m - 1 + 1]));
        assert forall|b: int| 0 <= b < bands.len() implies (#[trigger] states[m][b]).mask@.len()
            == window[2] * window[3] && states[m][b].samples_le@.len() == window[2] * window[3]
            * header.widths()[bands[b]] by {
            assert(states[m - 1][b].mask@.len() == window[2] * window[3]);
            if b != e.out_index {
                assert(states[m - 1 + 1][b] == states[m - 1][b]);
            }
        }
    }
}

} // verus!
