//! Reading gives back what writing stored: a window that is served from an object holds the
//! samples and masks of the windows that the object was written from.
use vstd::prelude::*;

use crate::skv_compile::{lane_packet, leaf_box, leaf_sides, lemma_group_shape, Stored};
use crate::skv_directory::{leaf_refusal, rec_leader, SummaryBits};
use crate::skv_header::Header;
use crate::skv_readback::{
    a_queue_is_served_in_a_chain, a_stored_chunk_carries_its_samples,
    a_stored_group_carries_its_samples, a_window_reads_back, carries, chained, chains_join,
    chunk_of, gathered, placed, roomy, Original,
};
use crate::skv_serve::{head_of, packet_at, packet_of, served_through, tile_shape};
use crate::skv_tiles::window_inside;
use crate::skv_window::Pending;
use crate::skv_writer::{
    band_stored, begin_of, chunk_stored, group_stored, lemma_single, packet_of_windows, payload_of,
    window_ok,
};
use crate::source::RawBandWindow;

verus! {

/// A chunk as it was written: the windows of its bands, their summaries, what was stored for
/// them, and where.
pub ghost struct Written {
    pub node: int,
    pub first: int,
    pub bounds: [usize; 4],
    pub windows: Seq<RawBandWindow>,
    pub states: Seq<Option<SummaryBits>>,
    pub stored: Seq<Stored>,
    pub position: int,
}

/// The number of the record of member `m` of a chunk.
pub open spec fn member_id(header: &Header, c: Written, m: int) -> int {
    c.node * header.raw_metadata.bands@.len() + c.first + m
}

/// The record of member `m` of a chunk.
pub open spec fn member_record(header: &Header, c: Written, m: int) -> Seq<u8> {
    if header.grouped_spec() {
        c.stored[0].records@[m]@
    } else {
        c.stored[m].records@[0]@
    }
}

/// A chunk of a leaf, of bands that are stored together, was made of the original samples.
pub open spec fn made_of(header: &Header, original: Original, c: Written) -> bool {
    let n = header.raw_metadata.bands@.len() as int;
    let b = leaf_box(header, c.node);
    &&& 0 <= c.node < header.leaf_count()
    &&& 0 <= c.first
    &&& c.windows.len() >= 1
    &&& c.first + c.windows.len() <= n
    &&& header.grouped_spec() ==> header.group_spec(c.first) == (c.first, c.windows.len() as int)
    &&& c.bounds[0] == b.0 && c.bounds[1] == b.1 && c.bounds[2] == b.2 && c.bounds[3] == b.3
    &&& forall|m: int|
        0 <= m < c.windows.len() ==> window_ok(
            *header,
            c.node,
            c.first + m,
            #[trigger] c.windows[m],
        ) && chunk_of(original, c.first + m, c.bounds, header.widths()[c.first + m], c.windows[m])
}

/// An object holds the payloads of a chunk where the writer put them.
pub open spec fn kept_in(object: Seq<u8>, c: Written) -> bool {
    forall|k: int|
        0 <= k < c.stored.len() ==> {
            let begin = begin_of(c.stored, c.position, k);
            let encoded = (#[trigger] c.stored[k]).encoded@;
            &&& 0 <= begin
            &&& begin + encoded.len() <= object.len()
            &&& object.subrange(begin, begin + encoded.len()) == encoded
        }
}

/// A chunk was written to an object.
pub open spec fn written(header: &Header, original: Original, object: Seq<u8>, c: Written) -> bool {
    &&& made_of(header, original, c)
    &&& chunk_stored(*header, c.node, c.first, c.windows, c.states, c.stored, c.position)
    &&& kept_in(object, c)
}

/// Every record of a leaf belongs to a chunk that was written. Records that are led together
/// belong to the chunk of their leader.
pub open spec fn written_whole(
    header: &Header,
    original: Original,
    object: Seq<u8>,
    chunk_at: spec_fn(int) -> Written,
) -> bool {
    let n = header.raw_metadata.bands@.len() as int;
    forall|id: int|
        0 <= id < header.leaf_count() * n ==> {
            let c = #[trigger] chunk_at(id);
            &&& written(header, original, object, c)
            &&& member_id(header, c, 0) <= id < member_id(header, c, c.windows.len() as int)
            &&& c == chunk_at(header.canonical(id).0)
        }
}

/// An entry has the record that was written for its number.
pub open spec fn has_its_record(header: &Header, chunk_at: spec_fn(int) -> Written, e: Pending) -> bool {
    let c = chunk_at(e.id as int);
    e.record@ == member_record(header, c, e.id - member_id(header, c, 0))
}

proof fn lemma_member(header: &Header, c: Written, id: int)
    requires
        header.shaped(),
        0 <= c.node < header.leaf_count(),
        0 <= c.first,
        c.first + c.windows.len() <= header.raw_metadata.bands@.len(),
        member_id(header, c, 0) <= id < member_id(header, c, c.windows.len() as int),
    ensures
        ({
            let n = header.raw_metadata.bands@.len() as int;
            &&& id / n == c.node
            &&& id % n == c.first + (id - member_id(header, c, 0))
        }),
{
    let n = header.raw_metadata.bands@.len() as int;
    vstd::arithmetic::div_mod::lemma_fundamental_div_mod_converse(
        id,
        n,
        c.node,
        id - c.node * n,
    );
}

/// The packet of an entry that stands for itself carries its tile.
proof fn lemma_single_carries(
    header: &Header,
    original: Original,
    object: Seq<u8>,
    chunk_at: spec_fn(int) -> Written,
    e: Pending,
    bands: int,
)
    requires
        header.shaped(),
        !header.grouped_spec(),
        written_whole(header, original, object, chunk_at),
        placed(header, e, bands),
        0 <= e.id < header.leaf_count() * header.raw_metadata.bands@.len(),
        has_its_record(header, chunk_at, e),
    ensures
        ({
            let part = object.subrange(e.begin(), e.begin() + e.size());
            &&& packet_of(header, e.id as int, e.record@, part) is Ok
            &&& carries(header, original, e, packet_of(header, e.id as int, e.record@, part)->Ok_0)
        }),
{
    let n = header.raw_metadata.bands@.len() as int;
    let c = chunk_at(e.id as int);
    let m = e.id - member_id(header, c, 0);
    lemma_member(header, c, e.id as int);
    assert(c.stored.len() == c.windows.len());
    let piece = c.stored[m];
    let begin = begin_of(c.stored, c.position, m);
    assert(band_stored(*header, c.node, c.first + m, c.windows[m], c.states[m], piece, begin));
    assert(object.subrange(begin, begin + piece.encoded@.len()) == piece.encoded@);
    assert(c.node * n + (c.first + m) == e.id);
    let payload = payload_of(*header, c.node, c.first + m, c.windows[m]);
    assert(e.begin() == begin && e.size() == piece.encoded@.len());
    lemma_single(header, c.node, c.first + m);
    assert(tile_shape(header, e) == (
        leaf_sides(header, c.node).0,
        leaf_sides(header, c.node).1,
        header.widths()[c.first + m],
    ));
    assert(c.bounds =~= e.bounds);
    assert(window_ok(*header, c.node, c.first + m, c.windows[m]));
    a_stored_chunk_carries_its_samples(header, original, e, c.windows[m]);
}

/// The packet of a group carries the tile of each of its members, whichever of them it was
/// read for.
proof fn lemma_group_carries(
    header: &Header,
    original: Original,
    object: Seq<u8>,
    chunk_at: spec_fn(int) -> Written,
    head: Pending,
    e: Pending,
    bands: int,
)
    requires
        header.shaped(),
        header.grouped_spec(),
        written_whole(header, original, object, chunk_at),
        placed(header, e, bands),
        0 <= e.id < header.leaf_count() * header.raw_metadata.bands@.len(),
        0 <= head.id < header.leaf_count() * header.raw_metadata.bands@.len(),
        has_its_record(header, chunk_at, e),
        has_its_record(header, chunk_at, head),
        rec_leader(head.record@) == rec_leader(e.record@),
    ensures
        ({
            let part = object.subrange(head.begin(), head.begin() + head.size());
            &&& packet_of(header, head.id as int, head.record@, part) is Ok
            &&& carries(
                header,
                original,
                e,
                packet_of(header, head.id as int, head.record@, part)->Ok_0,
            )
        }),
{
    let n = header.raw_metadata.bands@.len() as int;
    let c = chunk_at(e.id as int);
    let d = chunk_at(head.id as int);
    let m = e.id - member_id(header, c, 0);
    let k = head.id - member_id(header, d, 0);
    lemma_member(header, c, e.id as int);
    lemma_member(header, d, head.id as int);
    assert(group_stored(*header, c.node, c.first, c.windows, c.states, c.stored[0], c.position));
    assert(group_stored(*header, d.node, d.first, d.windows, d.states, d.stored[0], d.position));
    let at = c.stored[0].records@[m]@;
    let from = d.stored[0].records@[k]@;
    let led_by = c.node * n + c.first;
    assert(leaf_refusal(header, led_by + m, at, c.position + c.stored[0].encoded@.len()) is None);
    let head_led = d.node * n + d.first;
    assert(leaf_refusal(header, head_led + k, from, d.position + d.stored[0].encoded@.len()) is None);
    assert(header.canonical(e.id as int).0 == header.canonical(head.id as int).0);
    assert(c == d);
    let encoded = c.stored[0].encoded@;
    assert(begin_of(c.stored, c.position, 0) == c.position);
    assert(object.subrange(c.position, c.position + encoded.len()) == encoded);
    assert(head.begin() == c.position && head.size() == encoded.len());
    lemma_group_shape(header, c.node, c.first);
    assert(header.canonical(c.node * n + c.first + m) == (led_by, c.windows.len() as int));
    let (w, h, s) = tile_shape(header, e);
    let first_width = header.widths()[c.first];
    assert(s == first_width);
    let payloads = Seq::new(
        c.windows.len(),
        |i: int| payload_of(*header, c.node, c.first, c.windows[i]),
    );
    let packet = packet_of_windows(*header, c.node, c.first, c.windows);
    assert(packet =~= lane_packet(payloads, w, h, s, header.predicted())) by {
        let count = c.windows.len() as int;
        assert forall|i: int| 0 <= i < packet.len() implies packet[i] == lane_packet(
            payloads,
            w,
            h,
            s,
            header.predicted(),
        )[i] by {
            vstd::arithmetic::div_mod::lemma_mod_bound(i, count);
        }
    }
    assert(c.bounds =~= e.bounds);
    assert(window_ok(*header, c.node, c.first + m, c.windows[m]));
    a_stored_group_carries_its_samples(header, original, e, c.windows[m], payloads);
}

/// An entry shares the leader of the first entry of its packet.
proof fn lemma_head(entries: Seq<Pending>, i: int)
    requires
        0 <= i < entries.len(),
    ensures
        0 <= head_of(true, entries, i) <= i,
        entries[head_of(true, entries, i)].leader() == entries[i].leader(),
    decreases i,
{
    if i > 0 && entries[i].leader() == entries[i - 1].leader() {
        lemma_head(entries, i - 1);
    }
}

proof fn lemma_number(header: &Header, e: Pending, bands: int)
    requires
        header.shaped(),
        placed(header, e, bands),
    ensures
        0 <= e.id < header.leaf_count() * header.raw_metadata.bands@.len(),
{
    let n = header.raw_metadata.bands@.len() as int;
    let node = e.id as int / n;
    vstd::arithmetic::div_mod::lemma_fundamental_div_mod(e.id as int, n);
    assert((node + 1) * n <= header.leaf_count() * n) by (nonlinear_arith)
        requires
            node + 1 <= header.leaf_count(),
            n >= 1,
    ;
    assert((node + 1) * n == n * node + n) by (nonlinear_arith);
}

/// One read of a queue: its entries, and the bytes of the object that were fetched for them.
pub ghost struct Fetch {
    pub entries: Seq<Pending>,
    pub offset: int,
    pub length: int,
}

/// The bytes that a read fetched.
pub open spec fn fetched(object: Seq<u8>, f: Fetch) -> Seq<u8> {
    object.subrange(f.offset, f.offset + f.length)
}

/// The entries of the first `k` reads.
pub open spec fn entries_of(fetches: Seq<Fetch>, k: int) -> Seq<Pending>
    decreases k,
{
    if k <= 0 {
        Seq::empty()
    } else {
        entries_of(fetches, k - 1) + fetches[k - 1].entries
    }
}

/// The packets of one read.
spec fn packets_of(header: &Header, object: Seq<u8>, f: Fetch) -> Seq<Seq<u8>> {
    Seq::new(
        f.entries.len(),
        |i: int| packet_at(header, f.entries, f.offset, fetched(object, f), i)->Ok_0,
    )
}

spec fn packets_through(header: &Header, object: Seq<u8>, fetches: Seq<Fetch>, k: int) -> Seq<Seq<u8>>
    decreases k,
{
    if k <= 0 {
        Seq::empty()
    } else {
        packets_through(header, object, fetches, k - 1) + packets_of(header, object, fetches[k - 1])
    }
}

spec fn states_through(start: Seq<RawBandWindow>, steps: Seq<Seq<Seq<RawBandWindow>>>, k: int) -> Seq<
    Seq<RawBandWindow>,
>
    decreases k,
{
    if k <= 0 {
        seq![start]
    } else {
        states_through(start, steps, k - 1) + steps[k - 1].drop_first()
    }
}

/// Each read is served from what the object holds, and goes on where the one before it ended.
pub open spec fn served_from(
    header: &Header,
    object: Seq<u8>,
    fetches: Seq<Fetch>,
    window: [usize; 4],
    outputs: Seq<Seq<RawBandWindow>>,
    steps: Seq<Seq<Seq<RawBandWindow>>>,
) -> bool {
    &&& outputs.len() == fetches.len() + 1
    &&& steps.len() == fetches.len()
    &&& forall|k: int|
        0 <= k < fetches.len() ==> {
            let f = #[trigger] fetches[k];
            &&& 0 <= f.offset
            &&& 0 <= f.length
            &&& f.offset + f.length <= object.len()
            &&& forall|i: int|
                0 <= i < f.entries.len() ==> f.offset <= (#[trigger] f.entries[i]).begin()
                    && f.entries[i].begin() + f.entries[i].size() <= f.offset + f.length
            &&& served_through(
                header,
                f.entries,
                f.offset,
                fetched(object, f),
                window,
                steps[k],
                f.entries.len() as int,
            )
            &&& steps[k][0] == outputs[k]
            &&& steps[k].last() == outputs[k + 1]
        }
}

/// Each packet of a read carries the tile of its entry.
proof fn lemma_fetch_carries(
    header: &Header,
    original: Original,
    object: Seq<u8>,
    chunk_at: spec_fn(int) -> Written,
    f: Fetch,
    bands: int,
    i: int,
)
    requires
        header.shaped(),
        written_whole(header, original, object, chunk_at),
        0 <= f.offset,
        0 <= f.length,
        f.offset + f.length <= object.len(),
        forall|i: int|
            0 <= i < f.entries.len() ==> f.offset <= (#[trigger] f.entries[i]).begin()
                && f.entries[i].begin() + f.entries[i].size() <= f.offset + f.length,
        forall|i: int|
            0 <= i < f.entries.len() ==> placed(header, #[trigger] f.entries[i], bands)
                && has_its_record(header, chunk_at, f.entries[i]),
        0 <= i < f.entries.len(),
    ensures
        carries(header, original, f.entries[i], packets_of(header, object, f)[i]),
{
    let e = f.entries[i];
    assert(placed(header, e, bands));
    lemma_number(header, e, bands);
    let head = head_of(header.grouped_spec(), f.entries, i);
    if header.grouped_spec() {
        lemma_head(f.entries, i);
    }
    let g = f.entries[head];
    assert(placed(header, g, bands));
    lemma_number(header, g, bands);
    assert(fetched(object, f).subrange(g.begin() - f.offset, g.begin() - f.offset + g.size())
        =~= object.subrange(g.begin(), g.begin() + g.size()));
    if header.grouped_spec() {
        lemma_group_carries(header, original, object, chunk_at, g, e, bands);
    } else {
        lemma_single_carries(header, original, object, chunk_at, e, bands);
    }
}

/// The first `k` reads make one chain, whose packets carry their tiles.
proof fn lemma_reads(
    header: &Header,
    original: Original,
    object: Seq<u8>,
    chunk_at: spec_fn(int) -> Written,
    fetches: Seq<Fetch>,
    window: [usize; 4],
    outputs: Seq<Seq<RawBandWindow>>,
    steps: Seq<Seq<Seq<RawBandWindow>>>,
    bands: int,
    k: int,
)
    requires
        header.shaped(),
        written_whole(header, original, object, chunk_at),
        served_from(header, object, fetches, window, outputs, steps),
        forall|q: int, i: int|
            0 <= q < fetches.len() && 0 <= i < fetches[q].entries.len() ==> placed(
                header,
                #[trigger] fetches[q].entries[i],
                bands,
            ) && has_its_record(header, chunk_at, fetches[q].entries[i]),
        0 <= k <= fetches.len(),
    ensures
        ({
            let entries = entries_of(fetches, k);
            let packets = packets_through(header, object, fetches, k);
            let states = states_through(outputs[0], steps, k);
            &&& chained(header, entries, packets, window, states)
            &&& states[0] == outputs[0]
            &&& states.last() == outputs[k]
            &&& forall|i: int|
                0 <= i < entries.len() ==> carries(
                    header,
                    original,
                    #[trigger] entries[i],
                    packets[i],
                )
        }),
    decreases k,
{
    if k > 0 {
        lemma_reads(
            header,
            original,
            object,
            chunk_at,
            fetches,
            window,
            outputs,
            steps,
            bands,
            k - 1,
        );
        let f = fetches[k - 1];
        let before = entries_of(fetches, k - 1);
        let packed = packets_through(header, object, fetches, k - 1);
        let states = states_through(outputs[0], steps, k - 1);
        a_queue_is_served_in_a_chain(
            header,
            f.entries,
            f.offset,
            fetched(object, f),
            window,
            steps[k - 1],
        );
        let now = packets_of(header, object, f);
        assert(now =~= Seq::new(
            f.entries.len(),
            |i: int| packet_at(header, f.entries, f.offset, fetched(object, f), i)->Ok_0,
        ));
        chains_join(header, before, packed, window, states, f.entries, now, steps[k - 1]);
        let entries = entries_of(fetches, k);
        let packets = packets_through(header, object, fetches, k);
        let all = states_through(outputs[0], steps, k);
        assert(all.last() == outputs[k]) by {
            if f.entries.len() == 0 {
                assert(steps[k - 1].drop_first() =~= Seq::empty());
                assert(all =~= states);
                assert(steps[k - 1].last() == steps[k - 1][0]);
            }
        }
        assert forall|i: int| 0 <= i < entries.len() implies carries(
            header,
            original,
            #[trigger] entries[i],
            packets[i],
        ) by {
            if i < before.len() {
                assert(entries[i] == before[i]);
                assert(packets[i] == packed[i]);
            } else {
                let j = i - before.len();
                assert(fetches[k - 1].entries[j] == entries[i]);
                assert forall|x: int| 0 <= x < f.entries.len() implies placed(
                    header,
                    #[trigger] f.entries[x],
                    bands,
                ) && has_its_record(header, chunk_at, f.entries[x]) by {
                    assert(fetches[k - 1].entries[x] == f.entries[x]);
                }
                lemma_fetch_carries(header, original, object, chunk_at, f, bands, j);
                assert(packets[i] == now[j]);
            }
        }
    } else {
        assert(states_through(outputs[0], steps, 0).last() == outputs[0]);
    }
}

/// A window that is served from an object equals what was written to it: every sample and every
/// mask is the one of the windows that the writer stored, whatever the reads were, in whatever
/// order they came, and whatever the outputs held before.
pub proof fn a_served_window_is_what_was_written(
    header: &Header,
    original: Original,
    object: Seq<u8>,
    chunk_at: spec_fn(int) -> Written,
    window: [usize; 4],
    bands: Seq<int>,
    fetches: Seq<Fetch>,
    outputs: Seq<Seq<RawBandWindow>>,
    steps: Seq<Seq<Seq<RawBandWindow>>>,
)
    requires
        header.shaped(),
        window_inside(header, window),
        written_whole(header, original, object, chunk_at),
        gathered(header, window, bands, entries_of(fetches, fetches.len() as int)),
        forall|q: int, i: int|
            0 <= q < fetches.len() && 0 <= i < fetches[q].entries.len() ==> placed(
                header,
                #[trigger] fetches[q].entries[i],
                bands.len() as int,
            ) && has_its_record(header, chunk_at, fetches[q].entries[i]),
        served_from(header, object, fetches, window, outputs, steps),
        roomy(header, window, bands, outputs[0]),
    ensures
        roomy(header, window, bands, outputs.last()),
        forall|out: int, k: int|
            #![trigger outputs.last()[out].samples_le@[k]]
            0 <= out < bands.len() && 0 <= k < outputs.last()[out].samples_le@.len() ==> {
                let s = header.widths()[bands[out]];
                outputs.last()[out].samples_le@[k] == (original.samples)(
                    bands[out],
                    window[0] + k / s % window[2] as int,
                    window[1] + k / s / window[2] as int,
                    k % s,
                )
            },
        forall|out: int, c: int|
            #![trigger outputs.last()[out].mask@[c]]
            0 <= out < bands.len() && 0 <= c < outputs.last()[out].mask@.len()
                ==> outputs.last()[out].mask@[c] == (original.masks)(
                bands[out],
                window[0] + c % window[2] as int,
                window[1] + c / window[2] as int,
            ),
{
    let n = fetches.len() as int;
    lemma_reads(
        header,
        original,
        object,
        chunk_at,
        fetches,
        window,
        outputs,
        steps,
        bands.len() as int,
        n,
    );
    a_window_reads_back(
        header,
        original,
        window,
        bands,
        entries_of(fetches, n),
        packets_through(header, object, fetches, n),
        states_through(outputs[0], steps, n),
    );
}

} // verus!
