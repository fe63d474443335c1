//! Reading a window of an object, step by step: which record or which bytes are needed next,
//! and what the window holds once every one of them was handed over.
use vstd::prelude::*;

use crate::bytes::{u32_at, u64_at};
use crate::cancel::{ended, Cancel};
use crate::error::Error;
use crate::layout::box_at;
use crate::skv_directory::{
    leaf_refusal, node_bounds, rec_begin, rec_encoded, rec_leader, record_refusal, validate_record,
};
use crate::skv_group::MAX_BYTES;
use crate::skv_header::{Header, RECORD};
use crate::skv_prefetch::demand_limit;
use crate::skv_readback::{band_of, brings, gathered, placed, roomy, Original};
use crate::skv_roundtrip::{
    a_served_window_is_what_was_written, entries_of, fetched, has_its_record, member_id,
    member_record, served_from, written_whole, Fetch, Written,
};
use crate::skv_serve::{entry_ok, meets, packets_refusal, serve_queue, served_through, step_at};
use crate::skv_source::{
    cell_bytes, mapping_ok, raw_bound_of, validate_window, window_refusal, SkvBounds,
};
use crate::skv_tiles::{
    a_tile_of_a_window_meets_it, a_window_lies_in_its_tiles, holds_cell, leaders_agree, leaf_record,
    take_payload, tiles_of, window_inside, window_tiles,
};
use crate::skv_window::{
    all_wf, one_payload, queued_payloads_are_fetched, sort_by_begin, Pending, Queue,
};
use crate::source::{RawBandWindow, RawScalarType, RawWindow};

verus! {

/// What a read waits for.
#[derive(Clone, Copy, Debug, PartialEq, Eq, Structural)]
pub enum Need {
    /// The record of a number, held against those that it needs.
    Record(usize),
    /// These bytes of the object.
    Fetch { offset: u64, length: usize },
    /// Nothing: the window is whole.
    Done,
}

/// What stays the same during a read.
pub ghost struct Frame {
    pub header: Header,
    pub length: int,
    pub window: [usize; 4],
    /// The stored band of each output.
    pub bands: Seq<int>,
}

/// A record was handed over under its number.
pub open spec fn known(given: Seq<(int, Seq<u8>)>, e: Pending) -> bool {
    exists|j: int| 0 <= j < given.len() && #[trigger] given[j] == (e.id as int, e.record@)
}

/// An entry that the object and the window admit: of the band of its output, with a record that
/// was handed over for it.
pub open spec fn good(f: Frame, given: Seq<(int, Seq<u8>)>, e: Pending) -> bool {
    &&& placed(&f.header, e, f.bands.len() as int)
    &&& band_of(&f.header, e) == f.bands[e.out_index as int]
    &&& e.wf()
    &&& e.id < f.header.record_count()
    &&& record_refusal(&f.header, e.id as int, e.record@, f.length) is None
    &&& meets(e.bounds, f.window)
    &&& known(given, e)
}

#[verifier::opaque]
pub open spec fn all_good(f: Frame, given: Seq<(int, Seq<u8>)>, entries: Seq<Pending>) -> bool {
    forall|i: int| 0 <= i < entries.len() ==> good(f, given, #[trigger] entries[i])
}

/// Every output has its entry of each of the first `count` tiles.
#[verifier::opaque]
pub open spec fn brought(f: Frame, entries: Seq<Pending>, count: int) -> bool {
    forall|b: int, t: int|
        0 <= b < f.bands.len() && 0 <= t < count ==> brings(
            &f.header,
            entries,
            b,
            #[trigger] tiles_of(&f.header, f.window)[t],
            #[trigger] f.bands[b],
        )
}

/// Each read was served from the bytes that were handed over for it, and went on where the one
/// before it ended.
pub open spec fn reads_chain(
    header: &Header,
    window: [usize; 4],
    fetches: Seq<Fetch>,
    bytes: Seq<Seq<u8>>,
    outputs: Seq<Seq<RawBandWindow>>,
    steps: Seq<Seq<Seq<RawBandWindow>>>,
) -> bool {
    &&& bytes.len() == fetches.len()
    &&& outputs.len() == fetches.len() + 1
    &&& steps.len() == fetches.len()
    &&& forall|k: int|
        0 <= k < fetches.len() ==> read_at(
            header,
            window,
            #[trigger] fetches[k],
            bytes[k],
            outputs[k],
            outputs[k + 1],
            steps[k],
        )
}

/// One read, from the state of the outputs before it to the one after it.
pub open spec fn read_at(
    header: &Header,
    window: [usize; 4],
    f: Fetch,
    bytes: Seq<u8>,
    before: Seq<RawBandWindow>,
    after: Seq<RawBandWindow>,
    steps: Seq<Seq<RawBandWindow>>,
) -> bool {
    &&& 0 <= f.offset
    &&& bytes.len() == f.length
    &&& forall|i: int|
        0 <= i < f.entries.len() ==> f.offset <= (#[trigger] f.entries[i]).begin()
            && f.entries[i].begin() + f.entries[i].size() <= f.offset + f.length
    &&& served_through(header, f.entries, f.offset, bytes, window, steps, f.entries.len() as int)
    &&& steps[0] == before
    &&& steps.last() == after
}

/// The bytes that were handed over are those of an object.
pub open spec fn bytes_of(object: Seq<u8>, fetches: Seq<Fetch>, bytes: Seq<Seq<u8>>) -> bool {
    &&& bytes.len() == fetches.len()
    &&& forall|k: int|
        0 <= k < fetches.len() ==> (#[trigger] fetches[k]).offset + fetches[k].length
            <= object.len() && bytes[k] == fetched(object, fetches[k])
}

/// The records that were handed over are those that were written under their numbers.
pub open spec fn records_of(
    header: &Header,
    chunk_at: spec_fn(int) -> Written,
    given: Seq<(int, Seq<u8>)>,
) -> bool {
    forall|j: int|
        0 <= j < given.len() ==> {
            let c = chunk_at((#[trigger] given[j]).0);
            given[j].1 == member_record(header, c, given[j].0 - member_id(header, c, 0))
        }
}

proof fn lemma_good_part(
    f: Frame,
    given: Seq<(int, Seq<u8>)>,
    whole: Seq<Pending>,
    part: Seq<Pending>,
    at: int,
)
    requires
        all_good(f, given, whole),
        0 <= at,
        at + part.len() <= whole.len(),
        forall|i: int| 0 <= i < part.len() ==> #[trigger] part[i] == whole[at + i],
    ensures
        all_good(f, given, part),
{
    reveal(all_good);
    assert forall|i: int| 0 <= i < part.len() implies good(f, given, #[trigger] part[i]) by {
        assert(part[i] == whole[at + i]);
    }
}

proof fn lemma_good_joined(
    f: Frame,
    given: Seq<(int, Seq<u8>)>,
    x: Seq<Pending>,
    y: Seq<Pending>,
)
    requires
        all_good(f, given, x),
        all_good(f, given, y),
    ensures
        all_good(f, given, x + y),
{
    reveal(all_good);
    let whole = x + y;
    assert forall|i: int| 0 <= i < whole.len() implies good(f, given, #[trigger] whole[i]) by {
        if i < x.len() {
            assert(whole[i] == x[i]);
        } else {
            assert(whole[i] == y[i - x.len()]);
        }
    }
}

/// What was handed over later changes nothing of what was good.
proof fn lemma_good_later(
    f: Frame,
    given: Seq<(int, Seq<u8>)>,
    more: (int, Seq<u8>),
    entries: Seq<Pending>,
)
    requires
        all_good(f, given, entries),
    ensures
        all_good(f, given.push(more), entries),
{
    reveal(all_good);
    assert forall|i: int| 0 <= i < entries.len() implies good(
        f,
        given.push(more),
        #[trigger] entries[i],
    ) by {
        let e = entries[i];
        assert(good(f, given, e));
        let j = choose|j: int| 0 <= j < given.len() && #[trigger] given[j] == (e.id as int, e.record@);
        assert(given.push(more)[j] == (e.id as int, e.record@));
    }
}

/// The entries of a tile in another order.
proof fn lemma_reordered(
    f: Frame,
    given: Seq<(int, Seq<u8>)>,
    entries: Seq<Pending>,
    ordered: Seq<Pending>,
)
    requires
        all_good(f, given, entries),
        ordered.to_multiset() == entries.to_multiset(),
    ensures
        all_good(f, given, ordered),
        leaders_agree(entries) ==> leaders_agree(ordered),
        forall|i: int|
            0 <= i < entries.len() ==> #[trigger] ordered.contains(entries[i]),
{
    broadcast use vstd::seq_lib::group_to_multiset_ensures;

    reveal(all_good);
    assert forall|i: int| 0 <= i < ordered.len() implies entries.contains(#[trigger] ordered[i]) by {
        assert(ordered.contains(ordered[i]));
        assert(ordered.to_multiset().count(ordered[i]) > 0);
    }
    assert forall|i: int| 0 <= i < entries.len() implies #[trigger] ordered.contains(
        entries[i],
    ) by {
        assert(entries.contains(entries[i]));
        assert(entries.to_multiset().count(entries[i]) > 0);
    }
    assert forall|i: int| 0 <= i < ordered.len() implies good(f, given, #[trigger] ordered[i]) by {
        let k = choose|k: int| 0 <= k < entries.len() && entries[k] == ordered[i];
        assert(good(f, given, entries[k]));
    }
    if leaders_agree(entries) {
        assert forall|i: int, j: int|
            0 <= i < ordered.len() && 0 <= j < ordered.len() && (#[trigger] ordered[i]).leader() == (
            #[trigger] ordered[j]).leader() implies ordered[i].begin() == ordered[j].begin()
            && ordered[i].size() == ordered[j].size() by {
            assert(entries.contains(ordered[i]) && entries.contains(ordered[j]));
            let k = choose|k: int| 0 <= k < entries.len() && entries[k] == ordered[i];
            let l = choose|l: int| 0 <= l < entries.len() && entries[l] == ordered[j];
            assert(entries[k].leader() == entries[l].leader());
        }
    }
}

/// A tile whose entries were added is brought, and those before it stay so.
proof fn lemma_brought(
    f: Frame,
    pool: Seq<Pending>,
    count: int,
    selected: Seq<Pending>,
    ordered: Seq<Pending>,
)
    requires
        brought(f, pool, count),
        count < tiles_of(&f.header, f.window).len(),
        selected.len() == f.bands.len(),
        forall|b: int|
            0 <= b < selected.len() ==> (#[trigger] selected[b]).out_index == b && selected[b].id
                == tiles_of(&f.header, f.window)[count] * f.header.raw_metadata.bands@.len()
                + f.bands[b],
        forall|i: int| 0 <= i < selected.len() ==> #[trigger] ordered.contains(selected[i]),
    ensures
        brought(f, pool + ordered, count + 1),
{
    reveal(brought);
    let all = pool + ordered;
    let tiles = tiles_of(&f.header, f.window);
    assert forall|b: int, t: int| 0 <= b < f.bands.len() && 0 <= t < count + 1 implies brings(
        &f.header,
        all,
        b,
        #[trigger] tiles[t],
        #[trigger] f.bands[b],
    ) by {
        let id = tiles[t] * f.header.raw_metadata.bands@.len() + f.bands[b];
        if t < count {
            assert(brings(&f.header, pool, b, tiles[t], f.bands[b]));
            let j = choose|j: int|
                0 <= j < pool.len() && (#[trigger] pool[j]).out_index == b && pool[j].id == id;
            assert(all[j] == pool[j]);
        } else {
            assert(ordered.contains(selected[b]));
            let j = choose|j: int| 0 <= j < ordered.len() && ordered[j] == selected[b];
            assert(all[pool.len() + j] == ordered[j]);
            assert(selected[b].out_index == b);
            assert(all[pool.len() + j].out_index == b && all[pool.len() + j].id == id);
        }
    }
}

/// Serving leaves the room of the outputs.
proof fn lemma_room_kept(
    f: Frame,
    entries: Seq<Pending>,
    offset: int,
    bytes: Seq<u8>,
    states: Seq<Seq<RawBandWindow>>,
    i: int,
)
    requires
        roomy(&f.header, f.window, f.bands, states[0]),
        served_through(
            &f.header,
            entries,
            offset,
            bytes,
            f.window,
            states,
            entries.len() as int,
        ),
        0 <= i <= entries.len(),
    ensures
        roomy(&f.header, f.window, f.bands, states[i]),
    decreases i,
{
    if i > 0 {
        lemma_room_kept(f, entries, offset, bytes, states, i - 1);
        assert(step_at(&f.header, entries, offset, bytes, f.window, states, i - 1));
        let before = states[i - 1];
        let after = states[i];
        assert forall|b: int| 0 <= b < f.bands.len() implies (#[trigger] after[b]).mask@.len()
            == f.window[2] * f.window[3] && after[b].samples_le@.len() == f.window[2] * f.window[3]
            * f.header.widths()[f.bands[b]] by {
            assert(before[b].mask@.len() == f.window[2] * f.window[3]);
            if b != entries[i - 1].out_index {
                assert(after[b] == before[b]);
            }
        }
    }
}

/// Each entry of a read is among the entries of the reads.
proof fn lemma_entry_of(fetches: Seq<Fetch>, n: int, q: int, i: int) -> (at: int)
    requires
        0 <= q < n <= fetches.len(),
        0 <= i < fetches[q].entries.len(),
    ensures
        0 <= at < entries_of(fetches, n).len(),
        entries_of(fetches, n)[at] == fetches[q].entries[i],
    decreases n,
{
    if q == n - 1 {
        entries_of(fetches, n - 1).len() + i
    } else {
        lemma_entry_of(fetches, n - 1, q, i)
    }
}

/// Reads that are added later leave the entries of those before them.
proof fn lemma_entries_stay(fetches: Seq<Fetch>, more: Fetch, k: int)
    requires
        0 <= k <= fetches.len(),
    ensures
        entries_of(fetches.push(more), k) == entries_of(fetches, k),
    decreases k,
{
    if k > 0 {
        lemma_entries_stay(fetches, more, k - 1);
    }
}

/// An admitted entry can be served to outputs that have room.
proof fn lemma_servable(
    f: Frame,
    given: Seq<(int, Seq<u8>)>,
    entries: Seq<Pending>,
    output: Seq<RawBandWindow>,
)
    requires
        all_good(f, given, entries),
        roomy(&f.header, f.window, f.bands, output),
    ensures
        forall|i: int|
            0 <= i < entries.len() ==> entry_ok(
                &f.header,
                f.length,
                #[trigger] entries[i],
                f.window,
                output,
            ),
{
    reveal(all_good);
    assert forall|i: int| 0 <= i < entries.len() implies entry_ok(
        &f.header,
        f.length,
        #[trigger] entries[i],
        f.window,
        output,
    ) by {
        let e = entries[i];
        assert(good(f, given, e));
        assert(output[e.out_index as int].mask@.len() == f.window[2] * f.window[3]);
    }
}

/// The payload of an admitted entry ends within the object.
proof fn lemma_payload(f: Frame, given: Seq<(int, Seq<u8>)>, entries: Seq<Pending>, i: int)
    requires
        all_good(f, given, entries),
        0 <= i < entries.len(),
    ensures
        entries[i].begin() + entries[i].size() <= f.length,
{
    reveal(all_good);
    let e = entries[i];
    assert(good(f, given, e));
    assert(leaf_refusal(&f.header, e.id as int, e.record@, f.length) is None);
}

/// A read of a window of an object.
pub struct WindowServe {
    pub length: u64,
    pub window: [usize; 4],
    /// The bands as the source exposes them, and as the object stores them.
    pub bands: Vec<usize>,
    pub physical: Vec<usize>,
    pub tiles: Vec<usize>,
    pub limit: usize,
    /// How many tiles have all their records.
    pub tile: usize,
    /// The records of the tile after those.
    pub selected: Vec<Pending>,
    /// Entries of one payload that wait until what is queued was read, and those behind them.
    pub waiting: Vec<Pending>,
    pub ordered: Vec<Pending>,
    pub queue: Queue,
    pub output: Vec<RawBandWindow>,
    pub given: Ghost<Seq<(int, Seq<u8>)>>,
    pub fetches: Ghost<Seq<Fetch>>,
    pub bytes: Ghost<Seq<Seq<u8>>>,
    pub outputs: Ghost<Seq<Seq<RawBandWindow>>>,
    pub steps: Ghost<Seq<Seq<Seq<RawBandWindow>>>>,
}

/// What a read is refused for before it starts, if it is.
pub open spec fn read_refusal(
    header: &Header,
    mapping: Seq<usize>,
    window: [usize; 4],
    bands: Seq<usize>,
    max_bytes: int,
) -> Option<Error> {
    match window_refusal(
        header.grid.width as int,
        header.grid.height as int,
        mapping.len() as int,
        (window[0] as int, window[1] as int, window[2] as int, window[3] as int),
        bands,
    ) {
        Some(e) => Some(e),
        None => match raw_bound_of(
            scalars_of(header, mapping),
            window[2] as int,
            window[3] as int,
            bands,
        ) {
            Err(e) => Some(e),
            Ok(bound) => if bound > max_bytes {
                Some(Error::SkvRawBudget)
            } else {
                None
            },
        },
    }
}

/// The sample types that a mapping exposes.
pub open spec fn scalars_of(header: &Header, mapping: Seq<usize>) -> Seq<RawScalarType> {
    Seq::new(
        mapping.len(),
        |i: int| header.raw_metadata.bands@[mapping[i] as int].scalar_type,
    )
}

impl WindowServe {
    pub open spec fn frame(&self, header: &Header) -> Frame {
        Frame {
            header: *header,
            length: self.length as int,
            window: self.window,
            bands: self.stored(),
        }
    }

    /// The stored band of each output.
    pub open spec fn stored(&self) -> Seq<int> {
        Seq::new(self.physical@.len(), |i: int| self.physical@[i] as int)
    }

    /// The entries of all tiles that have their records, in the order in which they are read.
    pub open spec fn pool(&self) -> Seq<Pending> {
        entries_of(self.fetches@, self.fetches@.len() as int) + self.queue.pending@ + self.waiting@
            + self.ordered@
    }

    /// What the header, the window and the mapping fix.
    pub open spec fn set(&self, header: &Header) -> bool {
        &&& window_inside(header, self.window)
        &&& self.physical@.len() == self.bands@.len()
        &&& 0 < self.bands@.len() <= 64
        &&& forall|i: int|
            0 <= i < self.physical@.len() ==> (#[trigger] self.physical@[i])
                < header.raw_metadata.bands@.len()
        &&& self.limit < usize::MAX
        &&& self.tiles@.len() == tiles_of(header, self.window).len()
        &&& forall|i: int|
            0 <= i < self.tiles@.len() ==> #[trigger] self.tiles@[i] == tiles_of(
                header,
                self.window,
            )[i] && self.tiles@[i] < header.leaf_count()
    }

    /// What holds between any two steps of the work on one call.
    pub open spec fn sound(&self, header: &Header) -> bool {
        &&& self.set(header)
        &&& self.tile <= self.tiles@.len()
        &&& self.waiting@.len() + self.ordered@.len() <= 64
        &&& self.waiting@.len() > 0 ==> one_payload(self.waiting@)
        &&& header.grouped_spec() ==> leaders_agree(self.ordered@) && leaders_agree(self.selected@)
        &&& self.queue.wf(self.limit as int)
        &&& roomy(header, self.window, self.stored(), self.output@)
        &&& all_good(self.frame(header), self.given@, self.pool())
        &&& all_good(self.frame(header), self.given@, self.selected@)
        &&& brought(self.frame(header), self.pool(), self.tile as int)
        &&& forall|b: int|
            0 <= b < self.selected@.len() ==> (#[trigger] self.selected@[b]).out_index == b
                && self.selected@[b].id == tiles_of(header, self.window)[self.tile as int]
                * header.raw_metadata.bands@.len() + self.stored()[b]
        &&& self.selected@.len() > 0 ==> self.tile < self.tiles@.len()
        &&& self.given@.len() == self.pool().len() + self.selected@.len()
        &&& self.pool().len() == self.tile * self.bands@.len()
        &&& reads_chain(
            header,
            self.window,
            self.fetches@,
            self.bytes@,
            self.outputs@,
            self.steps@,
        )
        &&& self.outputs@.last() == self.output@
        &&& roomy(header, self.window, self.stored(), self.outputs@[0])
    }

    /// What holds between calls.
    pub open spec fn wf(&self, header: &Header) -> bool {
        &&& self.sound(header)
        &&& self.selected@.len() < self.bands@.len()
        &&& self.waiting@.len() + self.ordered@.len() > 0 ==> self.selected@.len() == 0
            && self.waiting@.len() > 0 && self.queue.pending@.len() > 0
    }

    /// What the read waits for.
    pub open spec fn need(&self, header: &Header) -> Need {
        if self.waiting@.len() > 0 || (self.tile == self.tiles@.len() && self.queue.pending@.len()
            > 0) {
            Need::Fetch { offset: self.queue.offset, length: self.queue.length }
        } else if self.tile < self.tiles@.len() {
            Need::Record(
                (tiles_of(header, self.window)[self.tile as int]
                    * header.raw_metadata.bands@.len() + self.stored()[self.selected@.len() as int])
                    as usize,
            )
        } else {
            Need::Done
        }
    }

    /// How many records and entries are not handed over or served yet: each step of a read lowers
    /// it.
    pub open spec fn left(&self) -> int {
        2 * self.tiles@.len() * self.bands@.len() - self.given@.len() - entries_of(
            self.fetches@,
            self.fetches@.len() as int,
        ).len()
    }

    /// A step changes nothing that the read was asked for.
    pub open spec fn same_read(&self, other: &WindowServe) -> bool {
        &&& self.length == other.length
        &&& self.window == other.window
        &&& self.bands == other.bands
        &&& self.physical == other.physical
        &&& self.tiles == other.tiles
        &&& self.limit == other.limit
    }
}

/// A band takes no more of a cell than all bands do.
proof fn lemma_cell_bytes(scalars: Seq<RawScalarType>, bands: Seq<usize>, i: int, k: nat)
    requires
        0 <= i < k <= bands.len(),
    ensures
        scalars[bands[i] as int].width() + 1 <= cell_bytes(scalars, bands, k),
        0 <= cell_bytes(scalars, bands, (k - 1) as nat),
    decreases k,
{
    reveal_with_fuel(cell_bytes, 2);
    if k > 1 {
        lemma_cell_bytes(scalars, bands, if i == k - 1 {
            i - 1
        } else {
            i
        }, (k - 1) as nat);
    }
}

impl WindowServe {
    /// Start to read a window of exposed bands. `range_limit` is the most bytes of one read, and
    /// `max_bytes` the memory that the window may take.
    pub fn new(
        header: &Header,
        length: u64,
        mapping: &[usize],
        window: [usize; 4],
        bands: &[usize],
        range_limit: usize,
        max_bytes: usize,
    ) -> (r: Result<WindowServe, Error>)
        requires
            header.shaped(),
            mapping_ok(mapping@, header.raw_metadata.bands@.len() as int),
            range_limit < usize::MAX,
        ensures
            match read_refusal(header, mapping@, window, bands@, max_bytes as int) {
                Some(e) => r is Err && r->Err_0 == e,
                None => {
                    &&& r matches Ok(serve)
                    &&& serve.wf(header)
                    &&& serve.length == length
                    &&& serve.window == window
                    &&& serve.bands@ == bands@
                    &&& serve.stored() == Seq::new(
                        bands@.len(),
                        |i: int| mapping@[bands@[i] as int] as int,
                    )
                    &&& serve.limit == if header.grouped_spec() && range_limit > MAX_BYTES {
                        MAX_BYTES
                    } else {
                        range_limit
                    }
                    &&& serve.given@.len() == 0
                    &&& serve.fetches@.len() == 0
                    &&& serve.tile == 0
                    &&& forall|b: int, k: int|
                        #![trigger serve.output@[b].samples_le@[k]]
                        0 <= b < bands@.len() && 0 <= k < serve.output@[b].samples_le@.len()
                            ==> serve.output@[b].samples_le@[k] == 0
                    &&& forall|b: int, k: int|
                        #![trigger serve.output@[b].mask@[k]]
                        0 <= b < bands@.len() && 0 <= k < serve.output@[b].mask@.len()
                            ==> serve.output@[b].mask@[k] == 0
                },
            },
    {
        let cells: usize = match validate_window(
            header.grid.width,
            header.grid.height,
            mapping.len(),
            window[0],
            window[1],
            window[2],
            window[3],
            bands,
        ) {
            Ok(cells) => cells,
            Err(e) => return Err(e),
        };
        let mut scalars: Vec<RawScalarType> = Vec::new();
        let mut m: usize = 0;
        while m < mapping.len()
            invariant
                m <= mapping@.len(),
                mapping_ok(mapping@, header.raw_metadata.bands@.len() as int),
                scalars@.len() == m,
                forall|i: int|
                    0 <= i < m ==> #[trigger] scalars@[i] == scalars_of(header, mapping@)[i],
            decreases mapping@.len() - m,
        {
            assert(mapping@[m as int] < header.raw_metadata.bands@.len());
            scalars.push(header.raw_metadata.bands[mapping[m]].scalar_type);
            m += 1;
        }
        assert(scalars@ =~= scalars_of(header, mapping@));
        let bounds = SkvBounds { scalars };
        let bound: usize = match bounds.raw_read_buffer_bound(window[2], window[3], bands) {
            Ok(bound) => bound,
            Err(e) => return Err(e),
        };
        if bound > max_bytes {
            return Err(Error::SkvRawBudget);
        }
        let ghost scalars = scalars_of(header, mapping@);
        let mut output: Vec<RawBandWindow> = Vec::new();
        let mut physical: Vec<usize> = Vec::new();
        let mut exposed: Vec<usize> = Vec::new();
        let mut b: usize = 0;
        while b < bands.len()
            invariant
                b <= bands@.len(),
                cells == window[2] * window[3],
                scalars == scalars_of(header, mapping@),
                mapping_ok(mapping@, header.raw_metadata.bands@.len() as int),
                mapping_ok(bands@, mapping@.len() as int),
                cells * cell_bytes(scalars, bands@, bands@.len()) + 8388608 <= usize::MAX,
                output@.len() == b,
                physical@.len() == b,
                exposed@ == bands@.take(b as int),
                forall|i: int|
                    0 <= i < b ==> #[trigger] physical@[i] == mapping@[bands@[i] as int]
                        && physical@[i] < header.raw_metadata.bands@.len(),
                forall|i: int|
                    0 <= i < b ==> (#[trigger] output@[i]).mask@.len() == cells
                        && output@[i].samples_le@.len() == cells * header.widths()[physical@[i] as int],
                forall|i: int, k: int|
                    #![trigger output@[i].samples_le@[k]]
                    0 <= i < b && 0 <= k < output@[i].samples_le@.len()
                        ==> output@[i].samples_le@[k] == 0,
                forall|i: int, k: int|
                    #![trigger output@[i].mask@[k]]
                    0 <= i < b && 0 <= k < output@[i].mask@.len() ==> output@[i].mask@[k] == 0,
            decreases bands@.len() - b,
        {
            assert(bands@[b as int] < mapping@.len());
            let at: usize = mapping[bands[b]];
            assert(at == mapping@[bands@[b as int] as int]);
            let width: usize = header.raw_metadata.bands[at].scalar_type.byte_width();
            proof {
                lemma_cell_bytes(scalars, bands@, b as int, bands@.len());
                assert(scalars[bands@[b as int] as int].width() == width);
                let total = cell_bytes(scalars, bands@, bands@.len());
                assert(cells * width <= cells * total) by (nonlinear_arith)
                    requires
                        0 <= cells,
                        width <= total,
                ;
            }
            output.push(
                RawBandWindow { samples_le: vec![0u8; cells * width], mask: vec![0u8; cells] },
            );
            physical.push(at);
            exposed.push(bands[b]);
            proof {
                assert(exposed@ =~= bands@.take(b + 1));
            }
            b += 1;
        }
        assert(exposed@ =~= bands@);
        let tiles: Vec<usize> = window_tiles(header, window);
        let limit: usize = demand_limit(range_limit, header.grouped());
        let ghost start = seq![output@];
        let serve = WindowServe {
            length,
            window,
            bands: exposed,
            physical,
            tiles,
            limit,
            tile: 0,
            selected: Vec::new(),
            waiting: Vec::new(),
            ordered: Vec::new(),
            queue: Queue::new(),
            output,
            given: Ghost(Seq::empty()),
            fetches: Ghost(Seq::empty()),
            bytes: Ghost(Seq::empty()),
            outputs: Ghost(start),
            steps: Ghost(Seq::empty()),
        };
        proof {
            reveal(all_good);
            reveal(brought);
            assert(serve.pool() =~= Seq::<Pending>::empty());
            assert(serve.tiles@.len() > 0) by {
                a_window_lies_in_its_tiles(
                    header,
                    window,
                    window[0] as int,
                    window[1] as int,
                );
            }
            assert(serve.stored() =~= Seq::new(
                bands@.len(),
                |i: int| mapping@[bands@[i] as int] as int,
            ));
            assert(0 * serve.bands@.len() == 0) by (nonlinear_arith);
        }
        Ok(serve)
    }

    /// What the read waits for.
    pub fn next(&self, header: &Header) -> (r: Need)
        requires
            header.shaped(),
            self.wf(header),
        ensures
            r == self.need(header),
            match r {
                Need::Record(id) => id < header.record_count() && id as int
                    / header.raw_metadata.bands@.len() as int == self.tiles@[self.tile as int],
                Need::Fetch { offset, length } => offset + length <= self.length,
                Need::Done => true,
            },
    {
        if self.waiting.len() > 0 || (self.tile == self.tiles.len() && self.queue.pending.len()
            > 0) {
            proof {
                let pool = self.pool();
                let a = entries_of(self.fetches@, self.fetches@.len() as int);
                let q = self.queue.pending@;
                lemma_good_part(self.frame(header), self.given@, pool, q, a.len() as int);
                lemma_payload(self.frame(header), self.given@, q, q.len() - 1);
            }
            return Need::Fetch { offset: self.queue.offset, length: self.queue.length };
        }
        if self.tile < self.tiles.len() {
            let at: usize = self.selected.len();
            assert(self.physical@[at as int] < header.raw_metadata.bands@.len());
            assert(self.tiles@[self.tile as int] < header.leaf_count());
            return Need::Record(leaf_record(header, self.tiles[self.tile], self.physical[at]));
        }
        Need::Done
    }

    /// Queue payload after payload, until one does not go behind what is queued.
    #[verifier::rlimit(60)]
    #[verifier::spinoff_prover]
    fn advance(&mut self, header: &Header) -> (r: Result<(), Error>)
        requires
            header.shaped(),
            old(self).sound(header),
            old(self).selected@.len() == 0,
            old(self).waiting@.len() == 0,
        ensures
            final(self).same_read(old(self)),
            final(self).tile == old(self).tile,
            final(self).selected@ == old(self).selected@,
            final(self).output@ == old(self).output@,
            final(self).given@ == old(self).given@,
            final(self).fetches@ == old(self).fetches@,
            final(self).bytes@ == old(self).bytes@,
            final(self).outputs@ == old(self).outputs@,
            final(self).steps@ == old(self).steps@,
            match r {
                Ok(()) => final(self).wf(header) && final(self).pool() == old(self).pool(),
                Err(e) => e == Error::PayloadRange && over(old(self).ordered@, old(self).limit as int),
            },
    {
        let grouped: bool = header.grouped();
        let ghost start = *self;
        let ghost whole = self.pool();
        let ghost mut taken: int = 0;
        while self.ordered.len() > 0
            invariant
                header.shaped(),
                grouped == header.grouped_spec(),
                start == *old(self),
                whole == start.pool(),
                self.sound(header),
                self.same_read(&start),
                self.tile == start.tile,
                self.selected@ == start.selected@,
                self.selected@.len() == 0,
                self.waiting@.len() == 0,
                self.output@ == start.output@,
                self.given@ == start.given@,
                self.fetches@ == start.fetches@,
                self.bytes@ == start.bytes@,
                self.outputs@ == start.outputs@,
                self.steps@ == start.steps@,
                self.pool() == whole,
                0 <= taken,
                self.ordered@ == start.ordered@.skip(taken),
                taken + self.ordered@.len() == start.ordered@.len(),
            decreases self.ordered@.len(),
        {
            let ghost before = *self;
            let ghost done = entries_of(self.fetches@, self.fetches@.len() as int);
            let ghost at = (done + self.queue.pending@).len() as int;
            proof {
                lemma_good_part(
                    self.frame(header),
                    self.given@,
                    whole,
                    self.ordered@,
                    at,
                );
                lemma_all_wf(self.frame(header), self.given@, self.ordered@);
                lemma_payload(self.frame(header), self.given@, self.ordered@, 0);
            }
            let members: Vec<Pending> = take_payload(&mut self.ordered, grouped);
            let ghost part = members@;
            assert(part[0] == before.ordered@[0]);
            if self.queue.must_flush(&members, self.limit) {
                self.waiting = members;
                proof {
                    assert(self.pool() =~= whole) by {
                        assert(part + self.ordered@ == before.ordered@);
                    }
                    assert(self.frame(header) == before.frame(header));
                }
                return Ok(());
            }
            let limit: usize = self.limit;
            match self.queue.push(members, limit) {
                Ok(()) => {},
                Err(e) => {
                    proof {
                        assert(start.ordered@[taken] == part[0]);
                    }
                    return Err(e);
                },
            }
            proof {
                assert(self.pool() =~= whole) by {
                    assert(part + self.ordered@ == before.ordered@);
                }
                assert(self.frame(header) == before.frame(header));
                taken = taken + part.len();
                assert(self.ordered@ =~= start.ordered@.skip(taken)) by {
                    assert forall|i: int| 0 <= i < self.ordered@.len() implies self.ordered@[i]
                        == start.ordered@.skip(taken)[i] by {
                        assert(before.ordered@[part.len() + i] == self.ordered@[i]);
                    }
                }
            }
        }
        Ok(())
    }
}

/// Some payload is longer than one read may be.
pub open spec fn over(entries: Seq<Pending>, limit: int) -> bool {
    exists|i: int| 0 <= i < entries.len() && (#[trigger] entries[i]).size() > limit
}

proof fn lemma_all_wf(f: Frame, given: Seq<(int, Seq<u8>)>, entries: Seq<Pending>)
    requires
        all_good(f, given, entries),
    ensures
        all_wf(entries),
{
    reveal(all_good);
    assert forall|i: int| 0 <= i < entries.len() implies (#[trigger] entries[i]).wf() by {
        assert(good(f, given, entries[i]));
    }
}

/// A record names the leader of another one of its tile, and another payload.
pub open spec fn disagrees(selected: Seq<Pending>, record: Seq<u8>) -> bool {
    exists|i: int|
        0 <= i < selected.len() && (#[trigger] selected[i]).leader() == rec_leader(record) && !(
        selected[i].begin() == rec_begin(record) && selected[i].size() == rec_encoded(record))
}

fn agree(selected: &Vec<Pending>, record: &[u8]) -> (r: bool)
    requires
        all_wf(selected@),
        record@.len() == RECORD,
    ensures
        r == !disagrees(selected@, record@),
{
    let leader: u64 = u64_at(record, 112);
    let begin: u64 = u64_at(record, 0);
    let size: u32 = u32_at(record, 8);
    let mut i: usize = 0;
    while i < selected.len()
        invariant
            i <= selected@.len(),
            all_wf(selected@),
            record@.len() == RECORD,
            leader == rec_leader(record@),
            begin == rec_begin(record@),
            size == rec_encoded(record@),
            forall|k: int|
                0 <= k < i ==> ((#[trigger] selected@[k]).leader() == rec_leader(record@) ==> (
                selected@[k].begin() == rec_begin(record@) && selected@[k].size() == rec_encoded(
                    record@,
                ))),
        decreases selected@.len() - i,
    {
        let other = selected[i].record.as_slice();
        assert(selected@[i as int].wf());
        if u64_at(other, 112) == leader && !(u64_at(other, 0) == begin && u32_at(other, 8)
            == size) {
            return false;
        }
        i += 1;
    }
    true
}

/// An entry of a tile of the window is good once its record was handed over.
proof fn lemma_entry_good(f: Frame, given: Seq<(int, Seq<u8>)>, t: int, e: Pending)
    requires
        f.header.shaped(),
        window_inside(&f.header, f.window),
        0 <= t < tiles_of(&f.header, f.window).len(),
        tiles_of(&f.header, f.window)[t] < f.header.leaf_count(),
        0 <= tiles_of(&f.header, f.window)[t],
        e.out_index < f.bands.len(),
        0 <= f.bands[e.out_index as int] < f.header.raw_metadata.bands@.len(),
        e.id == tiles_of(&f.header, f.window)[t] * f.header.raw_metadata.bands@.len()
            + f.bands[e.out_index as int],
        e.id < f.header.record_count(),
        ({
            let b = box_at(
                f.header.level_seq(),
                f.header.chunk_edge as int,
                f.header.grid.width as int,
                f.header.grid.height as int,
                tiles_of(&f.header, f.window)[t],
            );
            e.bounds[0] == b.0 && e.bounds[1] == b.1 && e.bounds[2] == b.2 && e.bounds[3] == b.3
        }),
        e.wf(),
        record_refusal(&f.header, e.id as int, e.record@, f.length) is None,
        given.len() > 0,
        given.last() == (e.id as int, e.record@),
    ensures
        good(f, given, e),
{
    let n = f.header.raw_metadata.bands@.len() as int;
    let tile = tiles_of(&f.header, f.window)[t];
    vstd::arithmetic::div_mod::lemma_fundamental_div_mod_converse(
        e.id as int,
        n,
        tile,
        f.bands[e.out_index as int],
    );
    a_tile_of_a_window_meets_it(&f.header, f.window, t);
    let (x, y) = choose|x: int, y: int|
        f.window[0] <= x < f.window[0] + f.window[2] && f.window[1] <= y < f.window[1] + f.window[3]
            && #[trigger] holds_cell(&f.header, tile, x, y);
    assert(holds_cell(&f.header, tile, x, y));
    assert(given[given.len() - 1] == (e.id as int, e.record@));
}

impl WindowServe {
    /// Hand over the record that the read waits for. A failure ends the read.
    #[verifier::rlimit(60)]
    #[verifier::spinoff_prover]
    pub fn record(&mut self, header: &Header, id: usize, record: Vec<u8>) -> (r: Result<(), Error>)
        requires
            header.shaped(),
            old(self).wf(header),
            old(self).need(header) == Need::Record(id),
            record@.len() == RECORD,
        ensures
            final(self).same_read(old(self)),
            match record_refusal(header, id as int, record@, old(self).length as int) {
                Some(e) => r == Err::<(), Error>(e),
                None => if header.grouped_spec() && disagrees(old(self).selected@, record@) {
                    r == Err::<(), Error>(Error::PayloadAlias)
                } else {
                    match r {
                        Ok(()) => {
                            &&& final(self).wf(header)
                            &&& final(self).given@ == old(self).given@.push((id as int, record@))
                            &&& final(self).fetches@ == old(self).fetches@
                            &&& final(self).bytes@ == old(self).bytes@
                            &&& final(self).outputs@ == old(self).outputs@
                            &&& final(self).steps@ == old(self).steps@
                            &&& final(self).output@ == old(self).output@
                            &&& final(self).left() < old(self).left()
                        },
                        Err(e) => {
                            &&& e == Error::PayloadRange
                            &&& old(self).selected@.len() + 1 == old(self).bands@.len()
                            &&& rec_encoded(record@) > old(self).limit || over(
                                old(self).selected@,
                                old(self).limit as int,
                            )
                        },
                    }
                },
            },
    {
        let ghost start = *self;
        let ghost f = self.frame(header);
        let ghost pool = self.pool();
        let at: usize = self.selected.len();
        let tile: usize = self.tiles[self.tile];
        proof {
            assert(self.tiles@[self.tile as int] == tiles_of(header, self.window)[self.tile as int]);
            assert(self.physical@[at as int] < header.raw_metadata.bands@.len());
            header.lemma_leaves();
            lemma_all_wf(f, self.given@, self.selected@);
        }
        let found: usize = leaf_record(header, tile, self.physical[at]);
        assert(found == id);
        match validate_record(header, id, record.as_slice(), self.length) {
            Ok(_) => {},
            Err(e) => return Err(e),
        }
        let grouped: bool = header.grouped();
        if grouped && !agree(&self.selected, record.as_slice()) {
            return Err(Error::PayloadAlias);
        }
        let bounds: [usize; 4] = node_bounds(header, tile);
        let ghost more = (id as int, record@);
        let entry = Pending { out_index: at, band: self.bands[at], id, bounds, record };
        let ghost added = entry;
        self.selected.push(entry);
        self.given = Ghost(self.given@.push(more));
        proof {
            lemma_good_later(f, start.given@, more, pool);
            lemma_good_later(f, start.given@, more, start.selected@);
            lemma_entry_good(f, self.given@, self.tile as int, added);
            assert(all_good(f, self.given@, self.selected@)) by {
                reveal(all_good);
                assert forall|i: int| 0 <= i < self.selected@.len() implies good(
                    f,
                    self.given@,
                    #[trigger] self.selected@[i],
                ) by {
                    if i < at {
                        assert(self.selected@[i] == start.selected@[i]);
                    }
                }
            }
            assert(self.pool() == pool);
            if header.grouped_spec() {
                lemma_still_agree(start.selected@, added);
            }
            assert forall|b: int| 0 <= b < self.selected@.len() implies (
            #[trigger] self.selected@[b]).out_index == b && self.selected@[b].id == tiles_of(
                header,
                self.window,
            )[self.tile as int] * header.raw_metadata.bands@.len() + self.stored()[b] by {
                if b < at {
                    assert(self.selected@[b] == start.selected@[b]);
                }
            }
        }
        if self.selected.len() < self.bands.len() {
            return Ok(());
        }
        let ghost chosen = self.selected@;
        let mut selected: Vec<Pending> = Vec::new();
        std::mem::swap(&mut selected, &mut self.selected);
        proof {
            lemma_all_wf(f, self.given@, chosen);
        }
        self.ordered = sort_by_begin(selected);
        proof {
            lemma_reordered(f, self.given@, chosen, self.ordered@);
            lemma_good_joined(f, self.given@, pool, self.ordered@);
            lemma_brought(f, pool, self.tile as int, chosen, self.ordered@);
            assert(self.pool() =~= pool + self.ordered@);
            let t = self.tile as int;
            let n = self.bands@.len() as int;
            assert((t + 1) * n == t * n + n) by (nonlinear_arith);
        }
        assert(self.tile < self.tiles.len());
        self.tile = self.tile + 1;
        proof {
            assert(self.frame(header) == f);
            assert(self.pool() =~= pool + self.ordered@);
            assert(self.pool().len() == self.tile * self.bands@.len());
            assert(all_good(f, self.given@, self.selected@)) by {
                reveal(all_good);
            }
        }
        let ghost mid = *self;
        match self.advance(header) {
            Ok(()) => {
                assert(self.left() < start.left());
                Ok(())
            },
            Err(e) => {
                proof {
                    let k = choose|k: int|
                        0 <= k < mid.ordered@.len() && (#[trigger] mid.ordered@[k]).size()
                            > mid.limit;
                    lemma_back(chosen, mid.ordered@, k);
                    let j = choose|j: int| 0 <= j < chosen.len() && chosen[j] == mid.ordered@[k];
                    if j < at {
                        assert(chosen[j] == start.selected@[j]);
                    }
                }
                Err(e)
            },
        }
    }

    /// Hand over the bytes that the read waits for. A failure ends the read.
    #[verifier::rlimit(60)]
    #[verifier::spinoff_prover]
    pub fn fetched<C: Cancel>(&mut self, header: &Header, bytes: &[u8], cancel: &C) -> (r: Result<
        (),
        Error,
    >)
        requires
            header.shaped(),
            old(self).wf(header),
            old(self).need(header) is Fetch,
        ensures
            final(self).same_read(old(self)),
            ended(
                cancel,
                r,
                if bytes@.len() != old(self).queue.length {
                    r == Err::<(), Error>(Error::PayloadRange)
                } else {
                    match packets_refusal(
                        header,
                        old(self).queue.pending@,
                        old(self).queue.offset as int,
                        bytes@,
                        0,
                    ) {
                        Some(e) => r == Err::<(), Error>(e),
                        None => match r {
                            Ok(()) => {
                                &&& final(self).wf(header)
                                &&& final(self).given@ == old(self).given@
                                &&& final(self).fetches@ == old(self).fetches@.push(
                                    old(self).fetch(),
                                )
                                &&& final(self).bytes@ == old(self).bytes@.push(bytes@)
                                &&& final(self).left() < old(self).left()
                            },
                            Err(e) => {
                                &&& e == Error::PayloadRange
                                &&& over(
                                    old(self).waiting@ + old(self).ordered@,
                                    old(self).limit as int,
                                )
                            },
                        },
                    }
                },
            ),
    {
        let ghost start = *self;
        let ghost f = self.frame(header);
        let ghost pool = self.pool();
        let ghost done = entries_of(self.fetches@, self.fetches@.len() as int);
        if bytes.len() != self.queue.length {
            return Err(Error::PayloadRange);
        }
        proof {
            lemma_good_part(f, self.given@, pool, self.queue.pending@, done.len() as int);
            lemma_servable(f, self.given@, self.queue.pending@, self.output@);
        }
        let taken: Queue = self.queue.take();
        let length: u64 = self.length;
        let window: [usize; 4] = self.window;
        match serve_queue(header, length, &taken, bytes, window, &mut self.output, cancel) {
            Ok(()) => {},
            Err(e) => return Err(e),
        }
        let ghost read = start.fetch();
        let ghost states = choose|states: Seq<Seq<RawBandWindow>>|
            #![trigger states.len()]
            served_through(
                header,
                read.entries,
                read.offset,
                bytes@,
                window,
                states,
                read.entries.len() as int,
            ) && states[0] == start.output@ && states[read.entries.len() as int] == self.output@;
        self.fetches = Ghost(self.fetches@.push(read));
        self.bytes = Ghost(self.bytes@.push(bytes@));
        self.outputs = Ghost(self.outputs@.push(self.output@));
        self.steps = Ghost(self.steps@.push(states));
        proof {
            assert(read_at(header, window, read, bytes@, start.output@, self.output@, states)) by {
                assert forall|i: int| 0 <= i < read.entries.len() implies read.offset <= (
                #[trigger] read.entries[i]).begin() && read.entries[i].begin()
                    + read.entries[i].size() <= read.offset + read.length by {
                    queued_payloads_are_fetched(&taken, self.limit as int, i);
                }
            }
            lemma_chain_grows(
                header,
                window,
                start.fetches@,
                start.bytes@,
                start.outputs@,
                start.steps@,
                read,
                bytes@,
                self.output@,
                states,
            );
            lemma_room_kept(
                f,
                read.entries,
                read.offset,
                bytes@,
                states,
                read.entries.len() as int,
            );
            lemma_entries_stay(start.fetches@, read, start.fetches@.len() as int);
            assert(entries_of(self.fetches@, self.fetches@.len() as int) =~= done + read.entries);
            assert(self.pool() =~= pool);
            assert(self.outputs@[0] == start.outputs@[0]);
        }
        if self.waiting.len() > 0 {
            let mut members: Vec<Pending> = Vec::new();
            std::mem::swap(&mut members, &mut self.waiting);
            let limit: usize = self.limit;
            let ghost part = members@;
            proof {
                lemma_good_part(
                    f,
                    self.given@,
                    pool,
                    part,
                    (done + read.entries).len() as int,
                );
                lemma_payload(f, self.given@, part, 0);
                assert((start.waiting@ + start.ordered@)[0] == part[0]);
            }
            match self.queue.push(members, limit) {
                Ok(()) => {},
                Err(e) => return Err(e),
            }
            assert(self.pool() =~= pool);
        }
        let ghost mid = *self;
        match self.advance(header) {
            Ok(()) => {
                assert(self.left() < start.left());
                Ok(())
            },
            Err(e) => {
                proof {
                    let k = choose|k: int|
                        0 <= k < mid.ordered@.len() && (#[trigger] mid.ordered@[k]).size()
                            > mid.limit;
                    assert((start.waiting@ + start.ordered@)[start.waiting@.len() + k]
                        == mid.ordered@[k]);
                }
                Err(e)
            },
        }
    }

    /// The read that is asked for next.
    pub open spec fn fetch(&self) -> Fetch {
        Fetch {
            entries: self.queue.pending@,
            offset: self.queue.offset as int,
            length: self.queue.length as int,
        }
    }

    /// The window, once nothing more is needed.
    pub fn finish(self, header: &Header) -> (r: RawWindow)
        requires
            header.shaped(),
            self.wf(header),
            self.need(header) is Done,
        ensures
            r.width == self.window[2],
            r.height == self.window[3],
            r.bands@ == self.output@,
            r.bands@ == self.outputs@.last(),
            roomy(header, self.window, self.stored(), r.bands@),
            gathered(
                header,
                self.window,
                self.stored(),
                entries_of(self.fetches@, self.fetches@.len() as int),
            ),
            reads_chain(
                header,
                self.window,
                self.fetches@,
                self.bytes@,
                self.outputs@,
                self.steps@,
            ),
    {
        proof {
            lemma_gathered(header, self);
        }
        RawWindow { width: self.window[2], height: self.window[3], bands: self.output }
    }
}

/// The records of one tile agree when each was held against those before it.
proof fn lemma_still_agree(selected: Seq<Pending>, e: Pending)
    requires
        leaders_agree(selected),
        !disagrees(selected, e.record@),
    ensures
        leaders_agree(selected.push(e)),
{
    let all = selected.push(e);
    let n = selected.len() as int;
    assert forall|i: int, j: int|
        0 <= i < all.len() && 0 <= j < all.len() && (#[trigger] all[i]).leader() == (
        #[trigger] all[j]).leader() implies all[i].begin() == all[j].begin() && all[i].size()
        == all[j].size() by {
        if i < n {
            assert(all[i] == selected[i]);
        }
        if j < n {
            assert(all[j] == selected[j]);
        }
    }
}

/// What is in one order of entries is in another.
proof fn lemma_back(entries: Seq<Pending>, ordered: Seq<Pending>, k: int)
    requires
        ordered.to_multiset() == entries.to_multiset(),
        0 <= k < ordered.len(),
    ensures
        entries.contains(ordered[k]),
{
    broadcast use vstd::seq_lib::group_to_multiset_ensures;

    assert(ordered.contains(ordered[k]));
    assert(ordered.to_multiset().count(ordered[k]) > 0);
}

proof fn lemma_chain_grows(
    header: &Header,
    window: [usize; 4],
    fetches: Seq<Fetch>,
    bytes: Seq<Seq<u8>>,
    outputs: Seq<Seq<RawBandWindow>>,
    steps: Seq<Seq<Seq<RawBandWindow>>>,
    f: Fetch,
    more: Seq<u8>,
    after: Seq<RawBandWindow>,
    states: Seq<Seq<RawBandWindow>>,
)
    requires
        reads_chain(header, window, fetches, bytes, outputs, steps),
        read_at(header, window, f, more, outputs.last(), after, states),
    ensures
        reads_chain(
            header,
            window,
            fetches.push(f),
            bytes.push(more),
            outputs.push(after),
            steps.push(states),
        ),
{
    let n = fetches.len() as int;
    assert forall|k: int| 0 <= k < n + 1 implies read_at(
        header,
        window,
        #[trigger] fetches.push(f)[k],
        bytes.push(more)[k],
        outputs.push(after)[k],
        outputs.push(after)[k + 1],
        steps.push(states)[k],
    ) by {
        if k < n {
            assert(fetches[k] == fetches.push(f)[k]);
            assert(outputs.push(after)[k + 1] == outputs[k + 1]);
        }
    }
}

/// A finished read gathered an entry for every output and tile of its window.
proof fn lemma_gathered(header: &Header, serve: WindowServe)
    requires
        header.shaped(),
        serve.wf(header),
        serve.need(header) is Done,
    ensures
        gathered(
            header,
            serve.window,
            serve.stored(),
            entries_of(serve.fetches@, serve.fetches@.len() as int),
        ),
        serve.pool() == entries_of(serve.fetches@, serve.fetches@.len() as int),
{
    reveal(all_good);
    reveal(brought);
    let entries = entries_of(serve.fetches@, serve.fetches@.len() as int);
    assert(serve.pool() =~= entries);
    let f = serve.frame(header);
    assert forall|i: int| 0 <= i < entries.len() implies placed(
        header,
        #[trigger] entries[i],
        f.bands.len() as int,
    ) && band_of(header, entries[i]) == f.bands[entries[i].out_index as int] by {
        assert(good(f, serve.given@, entries[i]));
    }
    assert forall|b: int| 0 <= b < f.bands.len() implies 0 <= #[trigger] f.bands[b]
        < header.raw_metadata.bands@.len() by {
        assert(serve.physical@[b] < header.raw_metadata.bands@.len());
    }
    let tiles = tiles_of(header, serve.window);
    assert forall|b: int, t: int| 0 <= b < f.bands.len() && 0 <= t < tiles.len() implies brings(
        header,
        entries,
        b,
        #[trigger] tiles[t],
        #[trigger] f.bands[b],
    ) by {
        assert(brings(&f.header, serve.pool(), b, tiles_of(&f.header, f.window)[t], f.bands[b]));
    }
    assert(gathered(header, serve.window, f.bands, entries));
}

/// A window that was read to its end equals what was written: where the records and the bytes
/// that were handed over are those of an object, every sample and every mask of the outputs is
/// the one of the windows that the writer stored.
pub proof fn a_read_window_is_what_was_written(
    header: &Header,
    serve: WindowServe,
    original: Original,
    object: Seq<u8>,
    chunk_at: spec_fn(int) -> Written,
)
    requires
        header.shaped(),
        serve.wf(header),
        serve.need(header) is Done,
        written_whole(header, original, object, chunk_at),
        records_of(header, chunk_at, serve.given@),
        bytes_of(object, serve.fetches@, serve.bytes@),
    ensures
        forall|out: int, k: int|
            #![trigger serve.output@[out].samples_le@[k]]
            0 <= out < serve.bands@.len() && 0 <= k < serve.output@[out].samples_le@.len() ==> {
                let s = header.widths()[serve.stored()[out]];
                serve.output@[out].samples_le@[k] == (original.samples)(
                    serve.stored()[out],
                    serve.window[0] + k / s % serve.window[2] as int,
                    serve.window[1] + k / s / serve.window[2] as int,
                    k % s,
                )
            },
        forall|out: int, c: int|
            #![trigger serve.output@[out].mask@[c]]
            0 <= out < serve.bands@.len() && 0 <= c < serve.output@[out].mask@.len()
                ==> serve.output@[out].mask@[c] == (original.masks)(
                serve.stored()[out],
                serve.window[0] + c % serve.window[2] as int,
                serve.window[1] + c / serve.window[2] as int,
            ),
{
    lemma_gathered(header, serve);
    let fetches = serve.fetches@;
    let n = fetches.len() as int;
    let f = serve.frame(header);
    assert(served_from(header, object, fetches, serve.window, serve.outputs@, serve.steps@)) by {
        assert forall|k: int| 0 <= k < n implies bytes_served(
            header,
            object,
            serve,
            #[trigger] fetches[k],
            k,
        ) by {
            assert(read_at(
                header,
                serve.window,
                fetches[k],
                serve.bytes@[k],
                serve.outputs@[k],
                serve.outputs@[k + 1],
                serve.steps@[k],
            ));
        }
    }
    assert forall|q: int, i: int|
        0 <= q < n && 0 <= i < fetches[q].entries.len() implies placed(
        header,
        #[trigger] fetches[q].entries[i],
        serve.stored().len() as int,
    ) && has_its_record(header, chunk_at, fetches[q].entries[i]) by {
        reveal(all_good);
        let at = lemma_entry_of(fetches, n, q, i);
        let e = serve.pool()[at];
        assert(good(f, serve.given@, e));
        let j = choose|j: int|
            0 <= j < serve.given@.len() && #[trigger] serve.given@[j] == (e.id as int, e.record@);
        assert(serve.given@[j].0 == e.id);
    }
    a_served_window_is_what_was_written(
        header,
        original,
        object,
        chunk_at,
        serve.window,
        serve.stored(),
        fetches,
        serve.outputs@,
        serve.steps@,
    );
}

/// One read of a finished window was served from the object.
spec fn bytes_served(header: &Header, object: Seq<u8>, serve: WindowServe, f: Fetch, k: int) -> bool {
    &&& 0 <= f.offset
    &&& 0 <= f.length
    &&& f.offset + f.length <= object.len()
    &&& forall|i: int|
        0 <= i < f.entries.len() ==> f.offset <= (#[trigger] f.entries[i]).begin()
            && f.entries[i].begin() + f.entries[i].size() <= f.offset + f.length
    &&& served_through(
        header,
        f.entries,
        f.offset,
        fetched(object, f),
        serve.window,
        serve.steps@[k],
        f.entries.len() as int,
    )
    &&& serve.steps@[k][0] == serve.outputs@[k]
    &&& serve.steps@[k].last() == serve.outputs@[k + 1]
}

} // verus!
