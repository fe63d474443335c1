//! Writing the payloads of a serving object one chunk after the other: for each run of bands
//! every tile in turn. Each payload begins where the one before has ended.
use vstd::prelude::*;

use crate::cancel::{ended, Cancel};
use crate::codec::encoded;
use crate::error::Error;
use crate::skv_build::{lemma_next_group, run_length};
use crate::skv_compile::{
    chunk_ok, chunk_payload, group_packet, leaf_box, leaf_record, leaf_sides, lemma_group_shape,
    output_refusal, pack_band, reads_back, store_band, store_group, Stored,
};
use crate::skv_directory::{lemma_leaf_cells, node_bounds, SummaryBits};
use crate::skv_group::{admitted, band_bytes, band_index, packet_of as stored_packet};
use crate::skv_header::{groups_divide_the_bands, CompileOptions, Header};
use crate::source::RawBandWindow;
use crate::text::same;

verus! {

/// Where the writing of an object stands: before tile `node` of the run of bands that begins
/// with `first`, and at the byte `position`.
pub struct Writer {
    pub header: Header,
    pub options: CompileOptions,
    pub first: usize,
    pub node: usize,
    pub position: u64,
}

/// The tile and the bands that are written next.
#[derive(Clone, Copy, Debug)]
pub struct Chunk {
    pub node: usize,
    pub first: usize,
    pub count: usize,
    /// The cells of the tile: left, top, right, bottom, the last two exclusive.
    pub bounds: [usize; 4],
}

/// The number of the codec of an object.
pub open spec fn codec_of(options: CompileOptions) -> int {
    if options.codec@ == "deflate"@ {
        1
    } else {
        0
    }
}

/// The payload of one band of a tile.
pub open spec fn payload_of(header: Header, node: int, band: int, window: RawBandWindow) -> Seq<u8> {
    let (w, h) = leaf_sides(&header, node);
    chunk_payload(window, w, h, header.widths()[band], header.predicted())
}

/// A window holds the samples and masks of one band of a tile.
pub open spec fn window_ok(header: Header, node: int, band: int, window: RawBandWindow) -> bool {
    let (w, h) = leaf_sides(&header, node);
    chunk_ok(window, w, h, header.widths()[band])
}

/// The packet of a group of bands of a tile: the bytes of the bands in turn.
pub open spec fn packet_of_windows(
    header: Header,
    node: int,
    first: int,
    windows: Seq<RawBandWindow>,
) -> Seq<u8> {
    let (w, h) = leaf_sides(&header, node);
    let s = header.widths()[first];
    let count = windows.len() as int;
    Seq::new(
        (band_bytes(w, h, s) * count) as nat,
        |i: int|
            payload_of(header, node, first, windows[i % count])[band_index(
                header.predicted(),
                w,
                h,
                s,
                i / count,
            )],
    )
}

/// Where the object ends behind one band that is stored for itself at `at`, or what storing it is
/// refused for.
pub open spec fn band_end(
    header: Header,
    options: CompileOptions,
    node: int,
    band: int,
    window: RawBandWindow,
    at: int,
) -> Result<int, Error> {
    if !window_ok(header, node, band, window) {
        Err(Error::SourceChunk)
    } else {
        let bytes = encoded(
            payload_of(header, node, band, window),
            codec_of(options),
            options.compression_level as int,
        );
        if bytes.len() > 4194304 {
            Err(Error::EncodedChunk)
        } else {
            match output_refusal(at, bytes.len() as int, options.max_output_bytes as int) {
                Some(e) => Err(e),
                None => Ok(at + bytes.len()),
            }
        }
    }
}

/// Where the object ends behind the first `m` bands of a chunk, each stored for itself, or what
/// storing one is refused for.
pub open spec fn bands_end(
    header: Header,
    options: CompileOptions,
    node: int,
    first: int,
    windows: Seq<RawBandWindow>,
    position: int,
    m: nat,
) -> Result<int, Error>
    decreases m,
{
    if m == 0 {
        Ok(position)
    } else {
        match bands_end(header, options, node, first, windows, position, (m - 1) as nat) {
            Err(e) => Err(e),
            Ok(at) => band_end(header, options, node, first + m - 1, windows[m - 1], at),
        }
    }
}

proof fn lemma_bands_stay(
    header: Header,
    options: CompileOptions,
    node: int,
    first: int,
    windows: Seq<RawBandWindow>,
    position: int,
    m: nat,
    n: nat,
)
    requires
        m <= n,
        bands_end(header, options, node, first, windows, position, m) is Err,
    ensures
        bands_end(header, options, node, first, windows, position, n) == bands_end(
            header,
            options,
            node,
            first,
            windows,
            position,
            m,
        ),
    decreases n - m,
{
    if m < n {
        lemma_bands_stay(header, options, node, first, windows, position, m, (n - 1) as nat);
    }
}

/// Where the object ends behind a chunk, or what the chunk is refused for.
pub open spec fn chunk_end(
    header: Header,
    options: CompileOptions,
    node: int,
    first: int,
    windows: Seq<RawBandWindow>,
    position: int,
) -> Result<int, Error> {
    if !header.grouped_spec() {
        bands_end(header, options, node, first, windows, position, windows.len())
    } else if exists|m: int|
        0 <= m < windows.len() && !window_ok(header, node, first, #[trigger] windows[m]) {
        Err(Error::SourceChunk)
    } else {
        let bytes = stored_packet(
            packet_of_windows(header, node, first, windows),
            codec_of(options),
            options.compression_level as int,
        ).0;
        match output_refusal(position, bytes.len() as int, options.max_output_bytes as int) {
            Some(e) => Err(e),
            None => Ok(position + bytes.len()),
        }
    }
}

/// Where payload `m` of a chunk begins.
pub open spec fn begin_of(stored: Seq<Stored>, position: int, m: int) -> int {
    if m <= 0 {
        position
    } else {
        stored[m - 1].end as int
    }
}

/// One stored band: its record names its payload, which reads back as it was.
pub open spec fn band_stored(
    header: Header,
    node: int,
    band: int,
    window: RawBandWindow,
    state: Option<SummaryBits>,
    stored: Stored,
    position: int,
) -> bool {
    let id = node * header.raw_metadata.bands@.len() + band;
    &&& stored.records@.len() == 1
    &&& stored.end == position + stored.encoded@.len()
    &&& leaf_record(stored.records@[0]@, id, state)
    &&& reads_back(
        &header,
        id,
        stored.records@[0]@,
        stored.encoded@,
        payload_of(header, node, band, window),
        position,
    )
}

/// One stored group: the record of each member names the packet, which reads back as it was.
pub open spec fn group_stored(
    header: Header,
    node: int,
    first: int,
    windows: Seq<RawBandWindow>,
    states: Seq<Option<SummaryBits>>,
    stored: Stored,
    position: int,
) -> bool {
    let leader = node * header.raw_metadata.bands@.len() + first;
    &&& stored.records@.len() == windows.len()
    &&& stored.end == position + stored.encoded@.len()
    &&& forall|m: int|
        0 <= m < windows.len() ==> leaf_record(
            (#[trigger] stored.records@[m])@,
            leader + m,
            states[m],
        ) && reads_back(
            &header,
            leader + m,
            stored.records@[m]@,
            stored.encoded@,
            packet_of_windows(header, node, first, windows),
            position,
        )
}

/// What a chunk leaves behind: a payload for each band, or one for all of them.
pub open spec fn chunk_stored(
    header: Header,
    node: int,
    first: int,
    windows: Seq<RawBandWindow>,
    states: Seq<Option<SummaryBits>>,
    stored: Seq<Stored>,
    position: int,
) -> bool {
    if header.grouped_spec() {
        stored.len() == 1 && group_stored(
            header,
            node,
            first,
            windows,
            states,
            stored[0],
            position,
        )
    } else {
        &&& stored.len() == windows.len()
        &&& forall|m: int|
            0 <= m < stored.len() ==> band_stored(
                header,
                node,
                first + m,
                windows[m],
                states[m],
                #[trigger] stored[m],
                begin_of(stored, position, m),
            )
    }
}

/// The bytes that band `m` of a chunk is stored as, where it is stored for itself.
pub open spec fn bytes_of_band(
    header: Header,
    options: CompileOptions,
    node: int,
    first: int,
    windows: Seq<RawBandWindow>,
    m: int,
) -> Seq<u8> {
    encoded(
        payload_of(header, node, first + m, windows[m]),
        codec_of(options),
        options.compression_level as int,
    )
}

/// The payloads of a chunk are what the encoder of the object makes of its windows.
pub open spec fn chunk_encoded(
    header: Header,
    options: CompileOptions,
    node: int,
    first: int,
    windows: Seq<RawBandWindow>,
    stored: Seq<Stored>,
) -> bool {
    if header.grouped_spec() {
        stored.len() == 1 && stored[0].encoded@ == stored_packet(
            packet_of_windows(header, node, first, windows),
            codec_of(options),
            options.compression_level as int,
        ).0
    } else {
        forall|m: int|
            0 <= m < stored.len() ==> (#[trigger] stored[m]).encoded@ == bytes_of_band(
                header,
                options,
                node,
                first,
                windows,
                m,
            )
    }
}

/// The bands that were stored so far are stored.
#[verifier::opaque]
spec fn each_stored(
    header: Header,
    node: int,
    first: int,
    windows: Seq<RawBandWindow>,
    states: Seq<Option<SummaryBits>>,
    stored: Seq<Stored>,
    position: int,
) -> bool {
    forall|m: int|
        0 <= m < stored.len() ==> band_stored(
            header,
            node,
            first + m,
            windows[m],
            states[m],
            #[trigger] stored[m],
            begin_of(stored, position, m),
        )
}

proof fn lemma_each_stored(
    header: Header,
    node: int,
    first: int,
    windows: Seq<RawBandWindow>,
    states: Seq<Option<SummaryBits>>,
    before: Seq<Stored>,
    piece: Stored,
    position: int,
)
    requires
        each_stored(header, node, first, windows, states, before, position),
        band_stored(
            header,
            node,
            first + before.len(),
            windows[before.len() as int],
            states[before.len() as int],
            piece,
            begin_of(before, position, before.len() as int),
        ),
    ensures
        each_stored(header, node, first, windows, states, before.push(piece), position),
{
    reveal(each_stored);
    let stored = before.push(piece);
    let n = before.len() as int;
    assert forall|m: int| 0 <= m < stored.len() implies band_stored(
        header,
        node,
        first + m,
        windows[m],
        states[m],
        #[trigger] stored[m],
        begin_of(stored, position, m),
    ) by {
        assert(begin_of(stored, position, m) == begin_of(before, position, m)) by {
            if m > 0 {
                assert(stored[m - 1] == before[m - 1]);
            }
        }
        if m < n {
            assert(stored[m] == before[m]);
        }
    }
}

impl Writer {
    pub open spec fn bands(&self) -> int {
        self.header.raw_metadata.bands@.len() as int
    }

    pub open spec fn wf(&self) -> bool {
        &&& self.header.shaped()
        &&& self.options.refusal() is None
        &&& self.first <= self.bands()
        &&& self.first < self.bands() ==> self.node < self.header.leaf_count()
        &&& self.first == self.bands() ==> self.node == 0
        &&& self.header.grouped_spec() && self.first < self.bands() ==> self.header.group_spec(
            self.first as int,
        ).0 == self.first
        &&& self.position >= self.header.data_start()
    }

    /// How many bands are stored with the one that comes next.
    pub open spec fn run(&self) -> int {
        run_length(&self.header, self.options.band_group as int, self.first as int)
    }

    /// Everything is written.
    pub open spec fn done(&self) -> bool {
        self.first == self.bands()
    }

    proof fn lemma_run(&self)
        requires
            self.wf(),
            !self.done(),
        ensures
            1 <= self.run() <= 64,
            self.first + self.run() <= self.bands(),
            self.first + self.run() < self.bands() && self.header.grouped_spec()
                ==> self.header.group_spec(self.first + self.run()).0 == self.first + self.run(),
            self.header.leaf_count() >= 1,
    {
        if self.header.grouped_spec() {
            lemma_next_group(&self.header, self.first as int);
        }
    }

    /// Begin behind the directory.
    pub fn new(header: Header, options: CompileOptions) -> (r: Writer)
        requires
            header.shaped(),
            options.refusal() is None,
        ensures
            r.wf(),
            r.header == header,
            r.options == options,
            r.first == 0,
            r.node == 0,
            r.position == header.data_start(),
    {
        let position: u64 = header.data_offset();
        proof {
            if header.grouped_spec() {
                groups_divide_the_bands(
                    header.widths(),
                    header.chunk_edge as int,
                    header.band_group as int,
                    0,
                );
            }
            header.lemma_leaves();
        }
        Writer { header, options, first: 0, node: 0, position }
    }

    /// The chunk that is written next, if there is one.
    pub fn next(&self) -> (r: Option<Chunk>)
        requires
            self.wf(),
        ensures
            r is None == self.done(),
            match r {
                Some(chunk) => {
                    &&& chunk.node == self.node
                    &&& chunk.first == self.first
                    &&& chunk.count == self.run()
                    &&& (
                        chunk.bounds[0] as int,
                        chunk.bounds[1] as int,
                        chunk.bounds[2] as int,
                        chunk.bounds[3] as int,
                    ) == leaf_box(&self.header, self.node as int)
                },
                None => true,
            },
    {
        let n: usize = self.header.bands();
        if self.first == n {
            return None;
        }
        proof {
            lemma_leaf_cells(&self.header, self.node as int);
        }
        Some(
            Chunk {
                node: self.node,
                first: self.first,
                count: self.count(),
                bounds: node_bounds(&self.header, self.node),
            },
        )
    }

    fn count(&self) -> (r: usize)
        requires
            self.wf(),
            !self.done(),
        ensures
            r == self.run(),
    {
        let n: usize = self.header.bands();
        if self.header.grouped() {
            match self.header.band_group_bounds(self.first) {
                Ok(g) => g.1,
                Err(_) => 0,
            }
        } else if self.options.band_group < n - self.first {
            self.options.band_group
        } else {
            n - self.first
        }
    }

    fn store_one<C: Cancel>(
        &self,
        band: usize,
        window: &RawBandWindow,
        state: Option<SummaryBits>,
        position: u64,
        cancel: &C,
    ) -> (r: Result<Stored, Error>)
        requires
            self.wf(),
            !self.done(),
            !self.header.grouped_spec(),
            band < self.bands(),
            position >= self.header.data_start(),
        ensures
            r == Err::<Stored, Error>(Error::Cancelled) ==> !cancel.never(),
            cancel.always() ==> r is Err,
            r != Err::<Stored, Error>(Error::Cancelled) ==> match band_end(
                self.header,
                self.options,
                self.node as int,
                band as int,
                *window,
                position as int,
            ) {
                Err(e) => r == Err::<Stored, Error>(e),
                Ok(end) => {
                    &&& r is Ok
                    &&& r->Ok_0.end == end
                    &&& end >= position
                    &&& r->Ok_0.encoded@ == encoded(
                        payload_of(self.header, self.node as int, band as int, *window),
                        codec_of(self.options),
                        self.options.compression_level as int,
                    )
                    &&& band_stored(
                        self.header,
                        self.node as int,
                        band as int,
                        *window,
                        state,
                        r->Ok_0,
                        position as int,
                    )
                },
            },
    {
        let ghost node = self.node as int;
        proof {
            lemma_leaf_cells(&self.header, node);
            lemma_single(&self.header, node, band as int);
        }
        let tile = node_bounds(&self.header, self.node);
        let width: usize = tile[2] - tile[0];
        let height: usize = tile[3] - tile[1];
        let predicted: bool = same(self.header.predictor.as_str(), "byte_delta_v1");
        let scalar: usize = self.header.raw_metadata.bands[band].scalar_type.byte_width();
        let payload: Vec<u8> = match pack_band(window, width, height, scalar, predicted, cancel) {
            Ok(payload) => payload,
            Err(e) => return Err(e),
        };
        store_band(
            &self.header,
            &self.options,
            self.node,
            band,
            payload.as_slice(),
            state,
            position,
            cancel,
        )
    }

    #[verifier::rlimit(60)]
    #[verifier::spinoff_prover]
    fn store_bands<C: Cancel>(
        &self,
        windows: &Vec<RawBandWindow>,
        states: &Vec<Option<SummaryBits>>,
        cancel: &C,
    ) -> (r: Result<Vec<Stored>, Error>)
        requires
            self.wf(),
            !self.done(),
            !self.header.grouped_spec(),
            windows@.len() == self.run(),
            states@.len() == windows@.len(),
        ensures
            r == Err::<Vec<Stored>, Error>(Error::Cancelled) ==> !cancel.never(),
            cancel.always() ==> r is Err,
            r != Err::<Vec<Stored>, Error>(Error::Cancelled) ==> match bands_end(
                self.header,
                self.options,
                self.node as int,
                self.first as int,
                windows@,
                self.position as int,
                windows@.len(),
            ) {
                Err(e) => r == Err::<Vec<Stored>, Error>(e),
                Ok(end) => {
                    &&& r is Ok
                    &&& begin_of(r->Ok_0@, self.position as int, r->Ok_0@.len() as int) == end
                    &&& chunk_encoded(
                        self.header,
                        self.options,
                        self.node as int,
                        self.first as int,
                        windows@,
                        r->Ok_0@,
                    )
                    &&& chunk_stored(
                        self.header,
                        self.node as int,
                        self.first as int,
                        windows@,
                        states@,
                        r->Ok_0@,
                        self.position as int,
                    )
                },
            },
    {
        let ghost node = self.node as int;
        let ghost first = self.first as int;
        proof {
            self.lemma_run();
        }
        let mut stored: Vec<Stored> = Vec::new();
        let mut position: u64 = self.position;
        let mut m: usize = 0;
        assert(each_stored(
            self.header,
            node,
            first,
            windows@,
            states@,
            stored@,
            self.position as int,
        )) by {
            reveal(each_stored);
        }
        while m < windows.len()
            invariant
                self.wf(),
                !self.done(),
                !self.header.grouped_spec(),
                windows@.len() == self.run(),
                self.first + self.run() <= self.bands(),
                states@.len() == windows@.len(),
                node == self.node,
                first == self.first,
                m <= windows@.len(),
                m > 0 ==> !cancel.always(),
                position == begin_of(stored@, self.position as int, m as int),
                position >= self.header.data_start(),
                stored@.len() == m,
                bands_end(
                    self.header,
                    self.options,
                    node,
                    first,
                    windows@,
                    self.position as int,
                    m as nat,
                ) == Ok::<int, Error>(position as int),
                forall|k: int|
                    0 <= k < m ==> (#[trigger] stored@[k]).encoded@ == bytes_of_band(
                        self.header,
                        self.options,
                        node,
                        first,
                        windows@,
                        k,
                    ),
                each_stored(
                    self.header,
                    node,
                    first,
                    windows@,
                    states@,
                    stored@,
                    self.position as int,
                ),
            decreases windows@.len() - m,
        {
            let band: usize = self.first + m;
            let ghost before = stored@;
            let piece: Stored = match self.store_one(
                band,
                &windows[m],
                states[m],
                position,
                cancel,
            ) {
                Ok(piece) => piece,
                Err(e) => {
                    proof {
                        if e != Error::Cancelled {
                            lemma_bands_stay(
                                self.header,
                                self.options,
                                node,
                                first,
                                windows@,
                                self.position as int,
                                (m + 1) as nat,
                                windows@.len(),
                            );
                        }
                    }
                    return Err(e);
                },
            };
            position = piece.end;
            proof {
                lemma_each_stored(
                    self.header,
                    node,
                    first,
                    windows@,
                    states@,
                    before,
                    piece,
                    self.position as int,
                );
            }
            stored.push(piece);
            m += 1;
        }
        assert(chunk_stored(
            self.header,
            node,
            first,
            windows@,
            states@,
            stored@,
            self.position as int,
        )) by {
            reveal(each_stored);
        }
        Ok(stored)
    }

    fn store_packet<C: Cancel>(
        &self,
        windows: &Vec<RawBandWindow>,
        states: &Vec<Option<SummaryBits>>,
        cancel: &C,
    ) -> (r: Result<Vec<Stored>, Error>)
        requires
            self.wf(),
            !self.done(),
            self.header.grouped_spec(),
            windows@.len() == self.run(),
            states@.len() == windows@.len(),
        ensures
            r == Err::<Vec<Stored>, Error>(Error::Cancelled) ==> !cancel.never(),
            cancel.always() ==> r is Err,
            r != Err::<Vec<Stored>, Error>(Error::Cancelled) ==> match chunk_end(
                self.header,
                self.options,
                self.node as int,
                self.first as int,
                windows@,
                self.position as int,
            ) {
                Err(e) => r == Err::<Vec<Stored>, Error>(e),
                Ok(end) => {
                    &&& r is Ok
                    &&& begin_of(r->Ok_0@, self.position as int, r->Ok_0@.len() as int) == end
                    &&& chunk_encoded(
                        self.header,
                        self.options,
                        self.node as int,
                        self.first as int,
                        windows@,
                        r->Ok_0@,
                    )
                    &&& chunk_stored(
                        self.header,
                        self.node as int,
                        self.first as int,
                        windows@,
                        states@,
                        r->Ok_0@,
                        self.position as int,
                    )
                },
            },
    {
        let ghost node = self.node as int;
        let ghost first = self.first as int;
        let ghost (w, h) = leaf_sides(&self.header, node);
        let ghost s = self.header.widths()[first];
        proof {
            self.lemma_run();
            lemma_leaf_cells(&self.header, node);
            lemma_group_shape(&self.header, node, first);
            lemma_single(&self.header, node, first);
        }
        let tile = node_bounds(&self.header, self.node);
        let width: usize = tile[2] - tile[0];
        let height: usize = tile[3] - tile[1];
        let scalar: usize = self.header.raw_metadata.bands[self.first].scalar_type.byte_width();
        let predicted: bool = same(self.header.predictor.as_str(), "byte_delta_v1");
        let mut payloads: Vec<Vec<u8>> = Vec::new();
        let mut m: usize = 0;
        while m < windows.len()
            invariant
                self.wf(),
                !self.done(),
                self.header.grouped_spec(),
                node == self.node,
                first == self.first,
                m <= windows@.len(),
                m > 0 ==> !cancel.always(),
                (w, h) == leaf_sides(&self.header, node),
                (width as int, height as int) == (w, h),
                scalar == s,
                s == self.header.widths()[first],
                admitted(w, h, s, 1),
                predicted == self.header.predicted(),
                payloads@.len() == m,
                forall|k: int|
                    0 <= k < m ==> (#[trigger] payloads@[k])@ == payload_of(
                        self.header,
                        node,
                        first,
                        windows@[k],
                    ) && payloads@[k]@.len() == band_bytes(w, h, s),
                forall|k: int|
                    0 <= k < m ==> window_ok(self.header, node, first, #[trigger] windows@[k]),
            decreases windows@.len() - m,
        {
            let payload: Vec<u8> = match pack_band(
                &windows[m],
                width,
                height,
                scalar,
                predicted,
                cancel,
            ) {
                Ok(payload) => payload,
                Err(e) => {
                    assert(e != Error::Cancelled ==> !window_ok(
                        self.header,
                        node,
                        first,
                        windows@[m as int],
                    ));
                    return Err(e);
                },
            };
            payloads.push(payload);
            m += 1;
        }
        proof {
            let ours = packet_of_windows(self.header, node, first, windows@);
            let theirs = group_packet(payloads@, w, h, s, self.header.predicted());
            let count = windows@.len() as int;
            assert forall|i: int| 0 <= i < theirs.len() implies ours[i] == theirs[i] by {
                assert(0 <= i % count < count) by (nonlinear_arith)
                    requires
                        count >= 1,
                ;
                assert(payloads@[i % count]@ == payload_of(
                    self.header,
                    node,
                    first,
                    windows@[i % count],
                ));
            }
            assert(ours =~= theirs);
        }
        match store_group(
            &self.header,
            &self.options,
            self.node,
            self.first,
            &payloads,
            states,
            self.position,
            cancel,
        ) {
            Ok(piece) => {
                let mut stored: Vec<Stored> = Vec::new();
                stored.push(piece);
                Ok(stored)
            },
            Err(e) => Err(e),
        }
    }

    /// Store the windows that were read for the next chunk, one for each of its bands, with the
    /// summaries of their cells, and go on behind them. A refused chunk changes nothing.
    pub fn store<C: Cancel>(
        &mut self,
        windows: &Vec<RawBandWindow>,
        states: &Vec<Option<SummaryBits>>,
        cancel: &C,
    ) -> (r: Result<Vec<Stored>, Error>)
        requires
            old(self).wf(),
            !old(self).done(),
            windows@.len() == old(self).run(),
            states@.len() == windows@.len(),
        ensures
            final(self).wf(),
            final(self).header == old(self).header,
            final(self).options == old(self).options,
            r is Err ==> *final(self) == *old(self),
            ended(
                cancel,
                r,
                match chunk_end(
                    old(self).header,
                    old(self).options,
                    old(self).node as int,
                    old(self).first as int,
                    windows@,
                    old(self).position as int,
                ) {
                    Err(e) => r == Err::<Vec<Stored>, Error>(e),
                    Ok(end) => {
                        &&& r is Ok
                        &&& final(self).position == end
                        &&& begin_of(
                            r->Ok_0@,
                            old(self).position as int,
                            r->Ok_0@.len() as int,
                        ) == end
                        &&& chunk_encoded(
                            old(self).header,
                            old(self).options,
                            old(self).node as int,
                            old(self).first as int,
                            windows@,
                            r->Ok_0@,
                        )
                        &&& chunk_stored(
                            old(self).header,
                            old(self).node as int,
                            old(self).first as int,
                            windows@,
                            states@,
                            r->Ok_0@,
                            old(self).position as int,
                        )
                        &&& (final(self).first as int, final(self).node as int) == after(
                            *old(self),
                        )
                    },
                },
            ),
    {
        proof {
            self.lemma_run();
        }
        let count: usize = self.count();
        let result: Result<Vec<Stored>, Error> = if self.header.grouped() {
            self.store_packet(windows, states, cancel)
        } else {
            self.store_bands(windows, states, cancel)
        };
        let stored: Vec<Stored> = match result {
            Ok(stored) => stored,
            Err(e) => return Err(e),
        };
        let pieces: usize = stored.len();
        proof {
            assert(pieces >= 1);
            if !self.header.grouped_spec() {
                lemma_begins(
                    self.header,
                    self.node as int,
                    self.first as int,
                    windows@,
                    states@,
                    stored@,
                    self.position as int,
                    pieces as int,
                );
            }
        }
        self.position = stored[pieces - 1].end;
        let leaves: usize = self.header.leaves();
        if self.node + 1 < leaves {
            self.node = self.node + 1;
        } else {
            self.node = 0;
            self.first = self.first + count;
        }
        Ok(stored)
    }
}

/// Where writing goes on behind a chunk: at the next tile, or at the first tile of the next run.
pub open spec fn after(w: Writer) -> (int, int) {
    if w.node + 1 < w.header.leaf_count() {
        (w.first as int, w.node + 1)
    } else {
        (w.first + w.run(), 0)
    }
}

/// Payloads of a chunk do not begin before the chunk.
proof fn lemma_begins(
    header: Header,
    node: int,
    first: int,
    windows: Seq<RawBandWindow>,
    states: Seq<Option<SummaryBits>>,
    stored: Seq<Stored>,
    position: int,
    m: int,
)
    requires
        !header.grouped_spec(),
        chunk_stored(header, node, first, windows, states, stored, position),
        0 <= m <= stored.len(),
    ensures
        begin_of(stored, position, m) >= position,
    decreases m,
{
    if m > 0 {
        lemma_begins(header, node, first, windows, states, stored, position, m - 1);
        assert(band_stored(
            header,
            node,
            first + m - 1,
            windows[m - 1],
            states[m - 1],
            stored[m - 1],
            begin_of(stored, position, m - 1),
        ));
    }
}

/// One band of a tile fits a packet of its own.
pub(crate) proof fn lemma_single(header: &Header, node: int, band: int)
    requires
        header.shaped(),
        0 <= node < header.leaf_count(),
        0 <= band < header.raw_metadata.bands@.len(),
    ensures
        ({
            let (w, h) = leaf_sides(header, node);
            let s = header.widths()[band];
            admitted(w, h, s, 1)
        }),
{
    lemma_leaf_cells(header, node);
    let (w, h) = leaf_sides(header, node);
    let s = header.widths()[band];
    assert(s == 1 || s == 2 || s == 4 || s == 8);
    assert(w * h * (s + 1) <= 65536 * 9) by (nonlinear_arith)
        requires
            0 < w * h <= 65536,
            1 <= s <= 8,
    ;
}

/// The place of a writer among all chunks of its object: how many come before it.
pub open spec fn place(w: Writer, run: int) -> int {
    run * w.header.leaf_count() + w.node
}

/// Writing goes on with the chunk that follows in the order of runs and tiles: it stays in its
/// run until the last tile, and the next run begins with the first one. No chunk is passed over
/// and none is written twice.
pub proof fn chunks_follow_one_another(w: Writer, run: int)
    requires
        w.wf(),
        !w.done(),
    ensures
        ({
            let next = after(w);
            let passed = if next.1 == 0 && next.0 != w.first {
                run + 1
            } else {
                run
            };
            &&& passed * w.header.leaf_count() + next.1 == place(w, run) + 1
            &&& w.first <= next.0 <= w.bands()
            &&& passed == run ==> next.0 == w.first
            &&& passed == run + 1 ==> next.0 == w.first + w.run()
        }),
{
    w.lemma_run();
    let n = w.header.leaf_count();
    assert((run + 1) * n == run * n + n) by (nonlinear_arith);
}

} // verus!
