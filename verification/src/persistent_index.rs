//! A retained handle on the summaries of a persistent index, and what ties an index to its
//! source and to its raw pages. The handle retains no values, no decoded windows and no pages.
use vstd::prelude::*;

use crate::error::Error;
use crate::layout::{box_at, lemma_node};
use crate::persistent::{
    page_body, verify_page, BoundarySource, Header, SourceIdentity, HEADER, MAX_PAIR_BYTES, RAW,
    SUMMARIES,
};
use crate::persistent_page::{
    read_state, state_at, state_refusal, validated, validated_state, BandState,
};
use crate::persistent_query::{check_index, memory_ok, Trace};
use crate::serving_profile::{equal_grids, same_grids};
use crate::text::{same, same_option};

verus! {

/// A summaries file that is read record by record.
pub struct PersistedIndex {
    pub header: Header,
    pub memory: usize,
    pub trace: Trace,
    /// A failed query or a changed file: the handle is to be closed and opened again.
    pub invalidated: bool,
}

/// What reading one record takes.
#[derive(Clone, Copy, Debug, PartialEq, Eq, Structural)]
pub struct RecordRead {
    pub offset: u64,
    pub length: usize,
    /// The cells that the record covers.
    pub cells: u64,
}

/// The cells of a record.
pub open spec fn record_cells(header: Header, record: int) -> int {
    let b = box_at(
        header.level_list(),
        header.tile_edge as int,
        header.grid.width as int,
        header.grid.height as int,
        record,
    );
    (b.2 - b.0) * (b.3 - b.1)
}

/// The states of a summary page, checked band by band: those of the first `n` bands.
pub open spec fn states_of(body: Seq<u8>, cells: int, fits: Seq<bool>, n: nat) -> Result<
    Seq<BandState>,
    Error,
>
    decreases n,
{
    if n == 0 {
        Ok(Seq::empty())
    } else {
        match states_of(body, cells, fits, (n - 1) as nat) {
            Err(e) => Err(e),
            Ok(before) => match state_refusal(state_at(body, n - 1), cells, fits[n - 1]) {
                Some(e) => Err(e),
                None => Ok(before.push(validated(state_at(body, n - 1)))),
            },
        }
    }
}

proof fn lemma_states_stay(body: Seq<u8>, cells: int, fits: Seq<bool>, k: nat, n: nat)
    requires
        k <= n,
        states_of(body, cells, fits, k) is Err,
    ensures
        states_of(body, cells, fits, n) == states_of(body, cells, fits, k),
    decreases n - k,
{
    if k < n {
        lemma_states_stay(body, cells, fits, k, (n - 1) as nat);
    }
}

/// The states of a summary page that its digest confirms.
pub open spec fn page_states(page: Seq<u8>, cells: int, fits: Seq<bool>, bands: nat) -> Result<
    Seq<BandState>,
    Error,
> {
    match page_body(page) {
        Err(e) => Err(e),
        Ok(body) => states_of(body, cells, fits, bands),
    }
}

proof fn lemma_records(h: Header)
    requires
        h.valid(),
        h.kind@ == SUMMARIES@,
    ensures
        0 < h.record_count() <= u32::MAX,
        h.record_count() * h.summary_bytes() + HEADER <= MAX_PAIR_BYTES,
        h.shaped(),
{
    h.lemma_shape();
    let n = h.record_count();
    let s = h.summary_bytes();
    if n > u32::MAX {
        assert(n * s > MAX_PAIR_BYTES) by (nonlinear_arith)
            requires
                n > 0xffff_ffff,
                s >= 72,
        ;
    }
}

impl PersistedIndex {
    pub open spec fn wf(&self) -> bool {
        &&& self.header.valid()
        &&& self.header.kind@ == SUMMARIES@
        &&& memory_ok(self.memory as int)
        &&& self.trace.wf()
    }

    /// Open an index on the header that was read from its first page.
    pub fn open(
        header: Header,
        length: u64,
        expected_build_id: &Option<String>,
        read_memory_bytes: usize,
    ) -> (r: Result<PersistedIndex, Error>)
        requires
            header.valid(),
        ensures
            if !memory_ok(read_memory_bytes as int) {
                r is Err && r->Err_0 == Error::IndexMemory
            } else if !(header.kind@ == SUMMARIES@ && header.length() == length) {
                r is Err && r->Err_0 == Error::TruncatedIndex
            } else if expected_build_id matches Some(id) && id@ != header.build_id@ {
                r is Err && r->Err_0 == Error::BuildMismatch
            } else {
                &&& r is Ok
                &&& r->Ok_0.wf()
                &&& r->Ok_0.header == header
                &&& r->Ok_0.memory == read_memory_bytes
                &&& !r->Ok_0.invalidated
                &&& r->Ok_0.trace.index_reads == 1
                &&& r->Ok_0.trace.index_bytes == HEADER
                &&& r->Ok_0.trace.raw_reads == 0
            },
    {
        if read_memory_bytes < 1048576 || read_memory_bytes > 134217728 {
            return Err(Error::IndexMemory);
        }
        match check_index(&header, length, expected_build_id) {
            Ok(()) => {},
            Err(e) => return Err(e),
        }
        let mut trace = Trace::new();
        trace.record(true, HEADER);
        Ok(PersistedIndex { header, memory: read_memory_bytes, trace, invalidated: false })
    }

    /// Refuse an invalidated handle.
    pub fn check_usable(&self) -> (r: Result<(), Error>)
        ensures
            r == (if self.invalidated {
                Err::<(), Error>(Error::Invalidated)
            } else {
                Ok(())
            }),
    {
        if self.invalidated {
            Err(Error::Invalidated)
        } else {
            Ok(())
        }
    }

    /// Note how a query or a look at the file has ended. A failure invalidates the handle for
    /// good: it is not used again on transport state that may be stale.
    pub fn settle(&mut self, failed: bool)
        ensures
            final(self).invalidated == (old(self).invalidated || failed),
            final(self).header == old(self).header,
            final(self).memory == old(self).memory,
            final(self).trace == old(self).trace,
    {
        if failed {
            self.invalidated = true;
        }
    }

    /// A retained handle answers queries whose boundary cells come from the original source.
    pub fn check_retained(&self) -> (r: Result<(), Error>)
        ensures
            r == (if self.invalidated {
                Err::<(), Error>(Error::Invalidated)
            } else if self.header.boundary_source != BoundarySource::Original {
                Err(Error::RetainedBoundary)
            } else {
                Ok(())
            }),
    {
        match self.check_usable() {
            Ok(()) => {},
            Err(e) => return Err(e),
        }
        if self.header.boundary_source != BoundarySource::Original {
            return Err(Error::RetainedBoundary);
        }
        Ok(())
    }

    /// The source is the one that the index was built from.
    pub fn verify_source_metadata(
        &self,
        source_id: &str,
        metadata: &str,
        identity: &Option<SourceIdentity>,
    ) -> (r: Result<(), Error>)
        ensures
            r == (if source_id@ == self.header.source_id@ && metadata@
                == self.header.source_metadata@ && same_identity(
                *identity,
                self.header.source_identity,
            ) {
                Ok::<(), Error>(())
            } else {
                Err(Error::SourceMismatch)
            }),
    {
        if same(source_id, self.header.source_id.as_str()) && same(
            metadata,
            self.header.source_metadata.as_str(),
        ) && identities_same(identity, &self.header.source_identity) {
            Ok(())
        } else {
            Err(Error::SourceMismatch)
        }
    }

    /// Why a record is not read, if it is not.
    pub open spec fn read_refusal(&self, record: int) -> Option<Error> {
        if record >= self.header.record_count() {
            Some(Error::SummaryRecord)
        } else if 2 * HEADER + 2 * self.header.summary_bytes() > self.memory {
            Some(Error::SummaryMemory)
        } else if !self.trace.affords(self.header.summary_bytes()) {
            Some(Error::QueryIo)
        } else {
            None
        }
    }

    /// Where a record stands in the file, and what it covers.
    pub fn locate(&self, record: usize) -> (r: Result<RecordRead, Error>)
        requires
            self.wf(),
        ensures
            match self.read_refusal(record as int) {
                Some(e) => r == Err::<RecordRead, Error>(e),
                None => {
                    &&& r is Ok
                    &&& r->Ok_0.offset == HEADER + record * self.header.summary_bytes()
                    &&& r->Ok_0.length == self.header.summary_bytes()
                    &&& r->Ok_0.cells == record_cells(self.header, record as int)
                    &&& r->Ok_0.offset + r->Ok_0.length <= self.header.length()
                },
            },
    {
        proof {
            lemma_records(self.header);
        }
        let records: usize = match self.header.summary_records() {
            Ok(n) => n,
            Err(e) => return Err(e),
        };
        if record >= records {
            return Err(Error::SummaryRecord);
        }
        let size: usize = self.header.summary_size();
        if 2 * HEADER + 2 * size > self.memory {
            return Err(Error::SummaryMemory);
        }
        match self.trace.check(size) {
            Ok(()) => {},
            Err(e) => return Err(e),
        }
        let b: [usize; 4] = match self.header.node_bounds(record) {
            Ok(b) => b,
            Err(e) => {
                assert(false);
                return Err(e);
            },
        };
        let ghost h = self.header;
        proof {
            lemma_node(
                h.grid.width as int,
                h.grid.height as int,
                h.tile_edge as int,
                h.flat(),
                record as int,
            );
            let n = h.record_count();
            let s = h.summary_bytes();
            let k = record as int;
            assert(k * s + s <= n * s) by (nonlinear_arith)
                requires
                    k + 1 <= n,
                    0 < s,
            ;
            assert(0 <= k * s) by (nonlinear_arith)
                requires
                    0 <= k,
                    0 < s,
            ;
            let w = b[2] - b[0];
            let t = b[3] - b[1];
            assert(0 <= w * t <= 0x7fff_ffff * 0x7fff_ffff) by (nonlinear_arith)
                requires
                    0 <= w <= 0x7fff_ffff,
                    0 <= t <= 0x7fff_ffff,
            ;
        }
        Ok(
            RecordRead {
                offset: HEADER as u64 + record as u64 * size as u64,
                length: size,
                cells: (b[2] - b[0]) as u64 * (b[3] - b[1]) as u64,
            },
        )
    }

    /// The states of a record, from the page that was read where the record stands. `fits`
    /// tells for each band whether its mean lies between its extremes.
    pub fn read_summary(&mut self, record: usize, page: &[u8], fits: &[bool]) -> (r: Result<
        Vec<BandState>,
        Error,
    >)
        requires
            old(self).wf(),
            page@.len() == old(self).header.summary_bytes(),
            fits@.len() == old(self).header.units@.len(),
        ensures
            final(self).wf(),
            final(self).header == old(self).header,
            final(self).memory == old(self).memory,
            final(self).invalidated == old(self).invalidated,
            match old(self).read_refusal(record as int) {
                Some(e) => r is Err && r->Err_0 == e && final(self).trace == old(self).trace,
                None => {
                    &&& final(self).trace.index_reads == old(self).trace.index_reads + 1
                    &&& final(self).trace.index_bytes == old(self).trace.index_bytes + page@.len()
                    &&& match page_states(
                        page@,
                        record_cells(old(self).header, record as int),
                        fits@,
                        old(self).header.units@.len(),
                    ) {
                        Ok(states) => r is Ok && r->Ok_0@ == states,
                        Err(e) => r is Err && r->Err_0 == e,
                    }
                },
            },
    {
        let read: RecordRead = match self.locate(record) {
            Ok(read) => read,
            Err(e) => return Err(e),
        };
        self.trace.record(true, read.length);
        let body = match verify_page(page) {
            Ok(body) => body,
            Err(e) => return Err(e),
        };
        let bands: usize = self.header.units.len();
        let cells: u64 = read.cells;
        assert(body@.len() == bands * 40);
        let mut states: Vec<BandState> = Vec::new();
        let mut band: usize = 0;
        while band < bands
            invariant
                band <= bands,
                bands == fits@.len(),
                body@.len() == bands * 40,
                states_of(body@, cells as int, fits@, band as nat) == Ok::<Seq<BandState>, Error>(
                    states@,
                ),
                page_body(page@) == Ok::<Seq<u8>, Error>(body@),
                bands == self.header.units@.len(),
                self.wf(),
                self.header == old(self).header,
                self.memory == old(self).memory,
                self.invalidated == old(self).invalidated,
                old(self).read_refusal(record as int) is None,
                cells == record_cells(old(self).header, record as int),
                self.trace.index_reads == old(self).trace.index_reads + 1,
                self.trace.index_bytes == old(self).trace.index_bytes + page@.len(),
            decreases bands - band,
        {
            let state: BandState = read_state(body, band);
            match validated_state(state, cells, fits[band]) {
                Ok(state) => states.push(state),
                Err(e) => {
                    proof {
                        lemma_states_stay(
                            body@,
                            cells as int,
                            fits@,
                            (band + 1) as nat,
                            bands as nat,
                        );
                    }
                    return Err(e);
                },
            }
            band += 1;
        }
        Ok(states)
    }

    /// The same of a leaf, which is a tile.
    pub fn read_leaf_summary(&mut self, tile: usize, page: &[u8], fits: &[bool]) -> (r: Result<
        Vec<BandState>,
        Error,
    >)
        requires
            old(self).wf(),
            page@.len() == old(self).header.summary_bytes(),
            fits@.len() == old(self).header.units@.len(),
        ensures
            final(self).wf(),
            final(self).header == old(self).header,
            if tile >= old(self).header.tile_count() {
                r is Err && r->Err_0 == Error::LeafTile && *final(self) == *old(self)
            } else {
                match old(self).read_refusal(tile as int) {
                    Some(e) => r is Err && r->Err_0 == e,
                    None => match page_states(
                        page@,
                        record_cells(old(self).header, tile as int),
                        fits@,
                        old(self).header.units@.len(),
                    ) {
                        Ok(states) => r is Ok && r->Ok_0@ == states,
                        Err(e) => r is Err && r->Err_0 == e,
                    },
                }
            },
    {
        proof {
            lemma_records(self.header);
            self.header.lemma_shape();
        }
        let tiles: usize = self.header.tiles();
        if tile >= tiles {
            return Err(Error::LeafTile);
        }
        self.read_summary(tile, page, fits)
    }
}

/// Two portable identities are the same.
pub open spec fn same_identity(a: Option<SourceIdentity>, b: Option<SourceIdentity>) -> bool {
    match (a, b) {
        (Some(a), Some(b)) => a.text@ == b.text@ && a.object == b.object,
        (None, None) => true,
        _ => false,
    }
}

fn identities_same(a: &Option<SourceIdentity>, b: &Option<SourceIdentity>) -> (r: bool)
    ensures
        r == same_identity(*a, *b),
{
    match (a, b) {
        (Some(a), Some(b)) => same(a.text.as_str(), b.text.as_str()) && a.object == b.object,
        (None, None) => true,
        _ => false,
    }
}

/// Why boundary cells have no source, if they have none. A path or a reader may be given;
/// `current` tells whether the file at the path is the one of the index.
pub open spec fn boundary_refusal(
    boundary: BoundarySource,
    path: bool,
    reader: bool,
    current: bool,
) -> Option<Error> {
    if path && !reader && !current {
        Some(Error::StaleIndex)
    } else if boundary == BoundarySource::Original && !path && !reader {
        Some(Error::MissingBoundaryReader)
    } else if boundary != BoundarySource::Original && reader {
        Some(Error::UnusedBoundaryReader)
    } else {
        None
    }
}

/// Where boundary cells of a query come from is settled.
pub fn check_boundary(boundary: BoundarySource, path: bool, reader: bool, current: bool) -> (r:
    Result<(), Error>)
    ensures
        r == (match boundary_refusal(boundary, path, reader, current) {
            Some(e) => Err::<(), Error>(e),
            None => Ok(()),
        }),
{
    if path && !reader && !current {
        return Err(Error::StaleIndex);
    }
    if boundary == BoundarySource::Original {
        if !path && !reader {
            return Err(Error::MissingBoundaryReader);
        }
    } else if reader {
        return Err(Error::UnusedBoundaryReader);
    }
    Ok(())
}

/// The original source of a query is the one that the index was built from.
pub fn check_original(
    header: &Header,
    source_id: &str,
    metadata: &str,
    identity: &Option<SourceIdentity>,
) -> (r: Result<(), Error>)
    ensures
        r == (if !(source_id@ == header.source_id@ && metadata@ == header.source_metadata@) {
            Err::<(), Error>(Error::SourceMismatch)
        } else if !same_identity(*identity, header.source_identity) {
            Err(Error::PortableMismatch)
        } else {
            Ok(())
        }),
{
    if !(same(source_id, header.source_id.as_str()) && same(
        metadata,
        header.source_metadata.as_str(),
    )) {
        return Err(Error::SourceMismatch);
    }
    if !identities_same(identity, &header.source_identity) {
        return Err(Error::PortableMismatch);
    }
    Ok(())
}

/// Two lists of units are the same.
pub open spec fn same_units(a: Seq<Option<String>>, b: Seq<Option<String>>) -> bool {
    &&& a.len() == b.len()
    &&& forall|i: int| 0 <= i < a.len() ==> same_unit(#[trigger] a[i], b[i])
}

pub open spec fn same_unit(a: Option<String>, b: Option<String>) -> bool {
    match (a, b) {
        (Some(a), Some(b)) => a@ == b@,
        (None, None) => true,
        _ => false,
    }
}

fn units_same(a: &Vec<Option<String>>, b: &Vec<Option<String>>) -> (r: bool)
    ensures
        r == same_units(a@, b@),
{
    if a.len() != b.len() {
        return false;
    }
    let mut i: usize = 0;
    while i < a.len()
        invariant
            i <= a@.len(),
            a@.len() == b@.len(),
            forall|k: int| 0 <= k < i ==> same_unit(#[trigger] a@[k], b@[k]),
        decreases a@.len() - i,
    {
        if !same_option(&a[i], &b[i]) {
            assert(!same_unit(a@[i as int], b@[i as int]));
            return false;
        }
        i += 1;
    }
    true
}

pub open spec fn same_texts(a: Seq<String>, b: Seq<String>) -> bool {
    &&& a.len() == b.len()
    &&& forall|i: int| 0 <= i < a.len() ==> (#[trigger] a[i])@ == b[i]@
}

fn texts_same(a: &Vec<String>, b: &Vec<String>) -> (r: bool)
    ensures
        r == same_texts(a@, b@),
{
    if a.len() != b.len() {
        return false;
    }
    let mut i: usize = 0;
    while i < a.len()
        invariant
            i <= a@.len(),
            a@.len() == b@.len(),
            forall|k: int| 0 <= k < i ==> (#[trigger] a@[k])@ == b@[k]@,
        decreases a@.len() - i,
    {
        if !same(a[i].as_str(), b[i].as_str()) {
            assert(a@[i as int]@ != b@[i as int]@);
            return false;
        }
        i += 1;
    }
    true
}

/// The grid, the layout and the build of two files are the same.
pub open spec fn same_layout(a: Header, b: Header) -> bool {
    &&& a.build_id@ == b.build_id@
    &&& equal_grids(a.grid, b.grid)
    &&& a.band_group == b.band_group
    &&& a.tile_edge == b.tile_edge
    &&& same_units(a.units@, b.units@)
    &&& a.source_id@ == b.source_id@
}

/// All else that two files of one build say is the same.
pub open spec fn same_provenance(a: Header, b: Header) -> bool {
    &&& a.version == b.version
    &&& a.numerical_contract@ == b.numerical_contract@
    &&& a.algorithm_version@ == b.algorithm_version@
    &&& a.source_metadata@ == b.source_metadata@
    &&& same_texts(a.capabilities@, b.capabilities@)
    &&& a.byte_order@ == b.byte_order@
    &&& a.scalar@ == b.scalar@
    &&& a.boundary_source == b.boundary_source
    &&& same_identity(a.source_identity, b.source_identity)
}

/// A file of raw pages is whole and belongs to the summaries of this header.
pub fn check_pair(header: &Header, raw: &Header, raw_length: u64) -> (r: Result<(), Error>)
    requires
        raw.valid(),
    ensures
        r == (if !(raw.kind@ == RAW@ && raw.length() == raw_length && same_layout(*raw, *header)) {
            Err::<(), Error>(Error::RawPairMismatch)
        } else if !same_provenance(*raw, *header) {
            Err(Error::RawProvenance)
        } else {
            Ok(())
        }),
{
    if !same(raw.kind.as_str(), RAW) {
        return Err(Error::RawPairMismatch);
    }
    proof {
        reveal_strlit("raw");
        reveal_strlit("summaries");
        assert(RAW@.len() != SUMMARIES@.len());
    }
    match raw.file_length(false) {
        Some(n) => {
            if n != raw_length {
                return Err(Error::RawPairMismatch);
            }
        },
        None => return Err(Error::RawPairMismatch),
    }
    if !(same(raw.build_id.as_str(), header.build_id.as_str()) && same_grids(
        &raw.grid,
        &header.grid,
    ) && raw.band_group == header.band_group && raw.tile_edge == header.tile_edge && units_same(
        &raw.units,
        &header.units,
    ) && same(raw.source_id.as_str(), header.source_id.as_str())) {
        return Err(Error::RawPairMismatch);
    }
    if !(raw.version == header.version && same(
        raw.numerical_contract.as_str(),
        header.numerical_contract.as_str(),
    ) && same(raw.algorithm_version.as_str(), header.algorithm_version.as_str()) && same(
        raw.source_metadata.as_str(),
        header.source_metadata.as_str(),
    ) && texts_same(&raw.capabilities, &header.capabilities) && same(
        raw.byte_order.as_str(),
        header.byte_order.as_str(),
    ) && same(raw.scalar.as_str(), header.scalar.as_str()) && raw.boundary_source
        == header.boundary_source && identities_same(
        &raw.source_identity,
        &header.source_identity,
    )) {
        return Err(Error::RawProvenance);
    }
    Ok(())
}

/// The checked states of a page that was written for valid states are those states.
pub proof fn a_written_page_reads_back(states: Seq<BandState>, cells: int, fits: Seq<bool>, n: nat)
    requires
        n <= states.len(),
        fits.len() == states.len(),
        forall|i: int|
            0 <= i < states.len() ==> state_refusal(#[trigger] states[i], cells, fits[i]) is None,
    ensures
        states_of(
            crate::persistent_page::states_bytes(states, states.len() as int),
            cells,
            fits,
            n,
        ) == Ok::<Seq<BandState>, Error>(Seq::new(n, |i: int| validated(states[i]))),
    decreases n,
{
    let body = crate::persistent_page::states_bytes(states, states.len() as int);
    if n > 0 {
        a_written_page_reads_back(states, cells, fits, (n - 1) as nat);
        crate::persistent_page::states_read_back(states, n - 1);
        assert(state_at(body, n - 1) == states[n - 1]);
        assert(Seq::new((n - 1) as nat, |i: int| validated(states[i])).push(
            validated(states[n - 1]),
        ) =~= Seq::new(n, |i: int| validated(states[i])));
    } else {
        assert(Seq::<BandState>::empty() =~= Seq::new(n, |i: int| validated(states[i])));
    }
}

} // verus!
