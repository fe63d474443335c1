//! A complete verification of a serving object, step by step: which page, record or payload is
//! needed next, and what holds of an object that passes.
use vstd::prelude::*;

use crate::bytes::{le_bytes, u32_at, u64_at};
use crate::cancel::{check_cancel, ended, Cancel};
use crate::codec::{blake3_of, hex_of};
use crate::error::Error;
use crate::index::lemma_row_of;
use crate::layout::end_of;
use crate::skv_audit::{needs_packet, Audit};
use crate::skv_compile::{leaf_sides, stored_state};
use crate::skv_delta::byte_delta;
use crate::skv_directory::{
    leaf_refusal, lemma_leaf_cells, lemma_plain_bound, node_bounds, node_cells, page_refusal,
    rec_begin, rec_decoded, rec_encoded, record_refusal, state_of, summary_of, validate_record,
    SummaryBits,
};
use crate::skv_group::{admitted, band_bytes, extract, holds, lane, lane_index};
use crate::skv_header::{Header, RECORD, RECORDS_PER_PAGE};
use crate::skv_serve::{decode_packet, lane_band, lemma_same_leader, packet_of, tile_bytes};
use crate::text::same;

verus! {

/// What a verification waits for.
#[derive(Clone, Copy, Debug, PartialEq, Eq, Structural)]
pub enum VerifyNeed {
    /// The next page of the directory.
    Page(usize),
    /// The record of a number, held against those that it needs.
    Record(usize),
    /// The payload of the record.
    Payload { offset: u64, length: usize },
    /// The summary of the record, recomputed from its samples or from its children.
    Summary(usize),
    Done,
}

/// Where a verification is with one record.
#[derive(Clone, Copy, Debug, PartialEq, Eq, Structural)]
pub enum Stage {
    Record,
    Payload,
    Summary,
}

/// Pages one behind the other.
pub open spec fn joined(pages: Seq<Seq<u8>>) -> Seq<u8>
    decreases pages.len(),
{
    if pages.len() == 0 {
        Seq::empty()
    } else {
        joined(pages.drop_last()) + pages.last()
    }
}

/// Tiles one behind the other, each behind its number.
pub open spec fn numbered(tiles: Seq<Seq<u8>>) -> Seq<u8>
    decreases tiles.len(),
{
    if tiles.len() == 0 {
        Seq::empty()
    } else {
        numbered(tiles.drop_last()) + le_bytes((tiles.len() - 1) as nat, 8) + tiles.last()
    }
}

/// How many records are of leaves. They come first.
pub open spec fn leaf_records(header: &Header) -> int {
    header.leaf_count() * header.raw_metadata.bands@.len()
}

/// The samples and masks of a leaf record in its packet.
pub open spec fn tile_of(header: &Header, id: int, packet: Seq<u8>) -> Seq<u8> {
    let n = header.raw_metadata.bands@.len() as int;
    let (w, h) = leaf_sides(header, id / n);
    let (leader, count) = header.canonical(id);
    tile_bytes(
        packet,
        header.grouped_spec(),
        header.predicted(),
        id - leader,
        count,
        w,
        h,
        header.widths()[id % n],
    )
}

/// Bytes of the packet of a leaf record.
pub open spec fn packet_bytes(header: &Header, id: int) -> int {
    let n = header.raw_metadata.bands@.len() as int;
    let (w, h) = leaf_sides(header, id / n);
    band_bytes(w, h, header.widths()[id % n]) * header.canonical(id).1
}

proof fn lemma_leaf(header: &Header, id: int)
    requires
        header.shaped(),
        0 <= id,
    ensures
        (id < leaf_records(header)) == (id / (header.raw_metadata.bands@.len() as int)
            < header.leaf_count()),
{
    let n = header.raw_metadata.bands@.len() as int;
    let node = id / n;
    vstd::arithmetic::div_mod::lemma_fundamental_div_mod(id, n);
    let leaves = header.leaf_count();
    if node < leaves {
        assert((node + 1) * n <= leaves * n) by (nonlinear_arith)
            requires
                node + 1 <= leaves,
                n >= 1,
        ;
        assert((node + 1) * n == n * node + n) by (nonlinear_arith);
    } else {
        assert(n * node >= leaves * n) by (nonlinear_arith)
            requires
                node >= leaves,
                n >= 1,
        ;
    }
}

/// The shape of an admitted leaf record's tile, and what its packet holds.
proof fn lemma_leaf_shape(header: &Header, length: int, id: int, record: Seq<u8>)
    requires
        header.shaped(),
        0 <= id,
        id / (header.raw_metadata.bands@.len() as int) < header.leaf_count(),
        record_refusal(header, id, record, length) is None,
    ensures
        ({
            let n = header.raw_metadata.bands@.len() as int;
            let (w, h) = leaf_sides(header, id / n);
            let s = header.widths()[id % n];
            let (leader, count) = header.canonical(id);
            &&& admitted(w, h, s, count)
            &&& rec_decoded(record) == packet_bytes(header, id)
            &&& leader <= id < leader + count
            &&& 0 < w <= 256 && 0 < h <= 256
            &&& 0 < w * h <= 65536
            &&& 0 < w * h * s <= 524288
            &&& band_bytes(w, h, s) == w * h * s + w * h
            &&& s == 1 || s == 2 || s == 4 || s == 8
            &&& !header.grouped_spec() ==> count == 1 && packet_bytes(header, id) == band_bytes(
                w,
                h,
                s,
            )
        }),
{
    let n = header.raw_metadata.bands@.len() as int;
    assert(id < (id + 1) * n) by (nonlinear_arith)
        requires
            id >= 0,
            n >= 1,
    ;
    lemma_row_of(id, n, id + 1);
    let node = id / n;
    lemma_leaf_cells(header, node);
    let (w, h) = leaf_sides(header, node);
    let s = header.widths()[id % n];
    let (leader, count) = header.canonical(id);
    assert(node_cells(header, node) == w * h);
    assert(s == 1 || s == 2 || s == 4 || s == 8);
    if header.grouped_spec() {
        crate::skv_header::groups_divide_the_bands(
            header.widths(),
            header.chunk_edge as int,
            header.band_group as int,
            id % n,
        );
    }
    assert(1 <= count <= 64);
    lemma_plain_bound(w * h, s, count);
    assert(w * h * (s + 1) == w * h * s + w * h) by (nonlinear_arith);
    assert(leaf_refusal(header, id, record, length) is None);
    let b = band_bytes(w, h, s);
    assert(count == 1 ==> b * count == b) by (nonlinear_arith);
}

/// A band that a packet holds is the one in the lane.
proof fn lemma_extracted(
    packet: Seq<u8>,
    band: Seq<u8>,
    member: int,
    count: int,
    w: int,
    h: int,
    s: int,
    planes: bool,
)
    requires
        w > 0,
        h > 0,
        s > 0,
        band.len() == band_bytes(w, h, s),
        holds(packet, band, member, count, w, h, s, planes),
    ensures
        band == lane_band(packet, member, count, w, h, s, planes),
{
    assert forall|i: int| 0 <= i < band.len() implies band[i] == lane_band(
        packet,
        member,
        count,
        w,
        h,
        s,
        planes,
    )[i] by {
        crate::skv_group::lane_order_is_a_permutation(planes, w, h, s, i);
        let q = lane_index(planes, w, h, s, i);
        assert(lane(packet, member, count, q) == lane(packet, member, count, q));
    }
    assert(band =~= lane_band(packet, member, count, w, h, s, planes));
}

/// The samples and masks of a leaf record, from its packet.
fn leaf_tile<C: Cancel>(
    header: &Header,
    id: usize,
    record: &[u8],
    packet: &[u8],
    cancel: &C,
    Ghost(length): Ghost<int>,
) -> (r: Result<Vec<u8>, Error>)
    requires
        header.shaped(),
        id as int / (header.raw_metadata.bands@.len() as int) < header.leaf_count(),
        record_refusal(header, id as int, record@, length) is None,
        packet@.len() == packet_bytes(header, id as int),
    ensures
        ended(cancel, r, r matches Ok(tile) && tile@ == tile_of(header, id as int, packet@)),
{
    proof {
        lemma_leaf_shape(header, length, id as int, record@);
        header.lemma_leaves();
    }
    let n: usize = header.bands();
    let node: usize = id / n;
    let scalar: usize = header.raw_metadata.bands[id % n].scalar_type.byte_width();
    let b = node_bounds(header, node);
    let width: usize = b[2] - b[0];
    let height: usize = b[3] - b[1];
    let (leader, count) = match header.canonical_group(id) {
        Ok(g) => g,
        Err(e) => return Err(e),
    };
    let predicted: bool = same(header.predictor.as_str(), "byte_delta_v1");
    let mut tile: Vec<u8> = if header.grouped() {
        let band: Vec<u8> = match extract(
            packet,
            id - leader,
            count,
            width,
            height,
            scalar,
            predicted,
            cancel,
        ) {
            Ok(band) => band,
            Err(e) => return Err(e),
        };
        proof {
            lemma_extracted(
                packet@,
                band@,
                id - leader,
                count as int,
                width as int,
                height as int,
                scalar as int,
                predicted,
            );
        }
        band
    } else {
        vstd::slice::slice_to_vec(packet)
    };
    if predicted {
        match byte_delta(&mut tile, width * height * scalar, width, height, scalar, true, cancel) {
            Ok(_) => {},
            Err(e) => return Err(e),
        }
    } else {
        check_cancel(cancel)?;
    }
    Ok(tile)
}

/// A packet, with its leader and the record that it was read for.
pub struct HeldPacket {
    pub leader: usize,
    pub prior: usize,
    pub packet: Vec<u8>,
}

/// A verification of one object.
pub struct Verification {
    pub audit: Audit,
    pub length: u64,
    pub id: usize,
    pub stage: Stage,
    pub record: Vec<u8>,
    /// The samples and masks of the leaf record whose summary is waited for.
    pub tile: Vec<u8>,
    /// The packet that was read last.
    pub held: Option<HeldPacket>,
    pub pages: Ghost<Seq<Seq<u8>>>,
    pub tiles: Ghost<Seq<Seq<u8>>>,
}

impl Verification {
    /// The record under way is of a leaf.
    pub open spec fn at_leaf(&self, header: &Header) -> bool {
        self.id < leaf_records(header)
    }

    /// How many leaf records have their tiles taken in.
    pub open spec fn tiled(&self, header: &Header) -> int {
        if !self.at_leaf(header) {
            leaf_records(header)
        } else if self.stage == Stage::Summary {
            self.id + 1
        } else {
            self.id as int
        }
    }

    pub open spec fn wf(&self, header: &Header) -> bool {
        &&& self.audit.pages() == self.pages@.len()
        &&& self.pages@.len() <= header.page_count()
        &&& self.audit.pages_taken() == joined(self.pages@)
        &&& self.id <= header.record_count()
        &&& self.id < header.record_count() || self.stage == Stage::Record
        &&& self.pages@.len() < header.page_count() ==> self.id == 0 && self.stage
            == Stage::Record
        &&& self.pages@.len() == header.page_count() ==> hex_of(blake3_of(joined(self.pages@)))
            == header.directory_digest@
        &&& self.tiles@.len() == self.tiled(header)
        &&& self.audit.payloads_taken() == numbered(self.tiles@)
        &&& self.audit.checked() <= self.id
        &&& self.stage != Stage::Record ==> self.record@.len() == RECORD && record_refusal(
            header,
            self.id as int,
            self.record@,
            self.length as int,
        ) is None
        &&& self.stage == Stage::Payload ==> self.at_leaf(header)
        &&& self.stage == Stage::Summary && self.at_leaf(header) ==> self.tile@
            == self.tiles@.last()
        &&& self.held matches Some(held) ==> {
            &&& header.grouped_spec()
            &&& held.leader == header.canonical(held.prior as int).0
            &&& held.packet@.len() == packet_bytes(header, held.prior as int)
        }
    }

    pub open spec fn need(&self, header: &Header) -> VerifyNeed {
        if self.pages@.len() < header.page_count() {
            VerifyNeed::Page(self.pages@.len() as usize)
        } else {
            match self.stage {
                Stage::Record => if self.id < header.record_count() {
                    VerifyNeed::Record(self.id)
                } else {
                    VerifyNeed::Done
                },
                Stage::Payload => VerifyNeed::Payload {
                    offset: rec_begin(self.record@) as u64,
                    length: rec_encoded(self.record@) as usize,
                },
                Stage::Summary => VerifyNeed::Summary(self.id),
            }
        }
    }

    /// The packet of the record under way is the one that was read last.
    pub open spec fn holds_packet(&self, header: &Header) -> bool {
        self.held is Some && self.held->0.leader == header.canonical(self.id as int).0
    }

    pub fn new(header: &Header, length: u64) -> (r: Verification)
        requires
            header.shaped(),
        ensures
            r.wf(header),
            r.length == length,
            r.id == 0,
            r.pages@.len() == 0,
            r.tiles@.len() == 0,
            r.need(header) == VerifyNeed::Page(0),
    {
        proof {
            header.lemma_leaves();
            crate::model::lemma_ceil_div(header.record_count(), RECORDS_PER_PAGE as int);
            assert(leaf_records(header) > 0) by (nonlinear_arith)
                requires
                    leaf_records(header) == header.leaf_count()
                        * header.raw_metadata.bands@.len(),
                    header.leaf_count() >= 1,
                    header.raw_metadata.bands@.len() >= 1,
            ;
        }
        Verification {
            audit: Audit::new(),
            length,
            id: 0,
            stage: Stage::Record,
            record: Vec::new(),
            tile: Vec::new(),
            held: None,
            pages: Ghost(Seq::empty()),
            tiles: Ghost(Seq::empty()),
        }
    }

    /// What the verification waits for.
    pub fn next(&self, header: &Header) -> (r: VerifyNeed)
        requires
            header.shaped(),
            self.wf(header),
        ensures
            r == self.need(header),
    {
        let page: usize = self.audit.next_page();
        if page < header.pages() {
            return VerifyNeed::Page(page);
        }
        match self.stage {
            Stage::Record => {
                if self.id < header.records() {
                    VerifyNeed::Record(self.id)
                } else {
                    VerifyNeed::Done
                }
            },
            Stage::Payload => VerifyNeed::Payload {
                offset: u64_at(self.record.as_slice(), 0),
                length: u32_at(self.record.as_slice(), 8) as usize,
            },
            Stage::Summary => VerifyNeed::Summary(self.id),
        }
    }

    /// Take in the next page of the directory. A failure ends the verification.
    pub fn page(&mut self, header: &Header, page: &[u8]) -> (r: Result<(), Error>)
        requires
            header.shaped(),
            old(self).wf(header),
            old(self).need(header) is Page,
        ensures
            ({
                let pages = old(self).pages@.push(page@);
                match page_refusal(
                    header.record_count(),
                    old(self).pages@.len() as int,
                    page@,
                ) {
                    Some(e) => r == Err::<(), Error>(e),
                    None => if pages.len() == header.page_count() && hex_of(
                        blake3_of(joined(pages)),
                    ) != header.directory_digest@ {
                        r == Err::<(), Error>(Error::AuditDirectory)
                    } else {
                        &&& r is Ok
                        &&& final(self).wf(header)
                        &&& final(self).pages@ == pages
                        &&& final(self).tiles@ == old(self).tiles@
                        &&& final(self).id == old(self).id
                        &&& final(self).length == old(self).length
                    },
                }
            }),
    {
        let records: usize = header.records();
        proof {
            lemma_page_there(records as int, self.pages@.len() as int);
        }
        self.audit.page(records, page)?;
        let ghost before = self.pages@;
        self.pages = Ghost(self.pages@.push(page@));
        assert(self.pages@.drop_last() =~= before);
        if self.audit.next_page() == header.pages() {
            self.audit.directory_matches(header)?;
        }
        Ok(())
    }

    /// Hand over the record that is waited for. A failure ends the verification.
    pub fn record<C: Cancel>(&mut self, header: &Header, record: Vec<u8>, cancel: &C) -> (r: Result<
        (),
        Error,
    >)
        requires
            header.shaped(),
            old(self).wf(header),
            old(self).need(header) is Record,
            record@.len() == RECORD,
        ensures
            r == Err::<(), Error>(Error::Cancelled) ==> !cancel.never(),
            r == Err::<(), Error>(Error::Cancelled) || match record_refusal(
                header,
                old(self).id as int,
                record@,
                old(self).length as int,
            ) {
                Some(e) => r == Err::<(), Error>(e),
                None => {
                    &&& r is Ok
                    &&& final(self).wf(header)
                    &&& final(self).id == old(self).id
                    &&& final(self).length == old(self).length
                    &&& final(self).record@ == record@
                    &&& final(self).pages@ == old(self).pages@
                    &&& if !old(self).at_leaf(header) {
                        final(self).stage == Stage::Summary && final(self).tiles@ == old(self).tiles@
                    } else if old(self).holds_packet(header) {
                        final(self).stage == Stage::Summary && final(self).tiles@ == old(self).tiles@.push(
                            tile_of(header, old(self).id as int, old(self).held->0.packet@),
                        )
                    } else {
                        final(self).stage == Stage::Payload && final(self).tiles@ == old(self).tiles@
                    }
                },
            },
    {
        let id: usize = self.id;
        proof {
            lemma_leaf(header, id as int);
            header.lemma_leaves();
        }
        match validate_record(header, id, record.as_slice(), self.length) {
            Ok(_) => {},
            Err(e) => {
                proof {
                    lemma_record_not_cancelled(
                        header,
                        id as int,
                        record@,
                        self.length as int,
                    );
                }
                return Err(e);
            },
        }
        let n: usize = header.bands();
        if id / n >= header.leaves() {
            self.record = record;
            self.stage = Stage::Summary;
            return Ok(());
        }
        let leader: Option<usize> = match &self.held {
            Some(h) => Some(h.leader),
            None => None,
        };
        if needs_packet(header, id, leader) {
            self.held = None;
            self.record = record;
            self.stage = Stage::Payload;
            return Ok(());
        }
        let tile: Vec<u8> = match &self.held {
            Some(h) => {
                proof {
                    lemma_same_leader(header, h.prior as int, id as int);
                }
                match leaf_tile(
                    header,
                    id,
                    record.as_slice(),
                    h.packet.as_slice(),
                    cancel,
                    Ghost(self.length as int),
                ) {
                    Ok(tile) => tile,
                    Err(e) => return Err(e),
                }
            },
            None => Vec::new(),
        };
        let ghost before = self.tiles@;
        self.audit.payload(id, tile.as_slice());
        self.tiles = Ghost(self.tiles@.push(tile@));
        assert(self.tiles@.drop_last() =~= before);
        self.tile = tile;
        self.record = record;
        self.stage = Stage::Summary;
        Ok(())
    }

    /// Hand over the payload that is waited for. A failure ends the verification.
    pub fn payload<C: Cancel>(&mut self, header: &Header, encoded: &[u8], cancel: &C) -> (r: Result<
        (),
        Error,
    >)
        requires
            header.shaped(),
            old(self).wf(header),
            old(self).need(header) is Payload,
        ensures
            ended(
                cancel,
                r,
                match packet_of(header, old(self).id as int, old(self).record@, encoded@) {
                    Err(e) => r == Err::<(), Error>(e),
                    Ok(packet) => {
                        &&& r is Ok
                        &&& final(self).wf(header)
                        &&& final(self).id == old(self).id
                        &&& final(self).length == old(self).length
                        &&& final(self).record@ == old(self).record@
                        &&& final(self).pages@ == old(self).pages@
                        &&& final(self).stage == Stage::Summary
                        &&& final(self).tiles@ == old(self).tiles@.push(
                            tile_of(header, old(self).id as int, packet),
                        )
                    },
                },
            ),
    {
        let id: usize = self.id;
        let ghost length = self.length as int;
        proof {
            lemma_leaf(header, id as int);
            lemma_leaf_shape(header, length, id as int, self.record@);
        }
        let packet: Vec<u8> = match decode_packet(
            header,
            id,
            self.record.as_slice(),
            encoded,
            cancel,
        ) {
            Ok(packet) => packet,
            Err(e) => return Err(e),
        };
        let tile: Vec<u8> = match leaf_tile(
            header,
            id,
            self.record.as_slice(),
            packet.as_slice(),
            cancel,
            Ghost(length),
        ) {
            Ok(tile) => tile,
            Err(e) => return Err(e),
        };
        let ghost before = self.tiles@;
        self.audit.payload(id, tile.as_slice());
        self.tiles = Ghost(self.tiles@.push(tile@));
        assert(self.tiles@.drop_last() =~= before);
        self.tile = tile;
        if header.grouped() {
            let leader: usize = match header.canonical_group(id) {
                Ok(g) => g.0,
                Err(e) => return Err(e),
            };
            self.held = Some(HeldPacket { leader, prior: id, packet });
        } else {
            self.held = None;
        }
        self.stage = Stage::Summary;
        Ok(())
    }

    /// Hold the stored summary of the record against the one that was recomputed, and go on. A
    /// failure ends the verification.
    pub fn summary(&mut self, header: &Header, computed: Option<SummaryBits>) -> (r: Result<
        (),
        Error,
    >)
        requires
            header.shaped(),
            old(self).wf(header),
            old(self).need(header) is Summary,
        ensures
            ({
                let stored = summary_of(old(self).record@);
                let n = header.raw_metadata.bands@.len() as int;
                if stored is Some && computed is None {
                    r == Err::<(), Error>(Error::AuditRecompute)
                } else if stored is Some && stored_state(computed->0) != stored->0 {
                    r == Err::<(), Error>(Error::AuditSummary)
                } else if stored is Some && stored->0.count > node_cells(
                    header,
                    old(self).id as int / n,
                ) {
                    r == Err::<(), Error>(Error::AuditCount)
                } else {
                    &&& r is Ok
                    &&& final(self).wf(header)
                    &&& final(self).id == old(self).id + 1
                    &&& final(self).length == old(self).length
                    &&& final(self).stage == Stage::Record
                    &&& final(self).pages@ == old(self).pages@
                    &&& final(self).tiles@ == old(self).tiles@
                    &&& final(self).audit.checked() == old(self).audit.checked() + if stored
                        is Some {
                        1int
                    } else {
                        0
                    }
                }
            }),
    {
        let n: usize = header.bands();
        let id: usize = self.id;
        proof {
            lemma_leaf(header, id as int);
            lemma_leaf(header, id + 1);
            header.lemma_leaves();
            lemma_node_there(header, id as int);
        }
        let records: usize = header.records();
        self.audit.summary(self.record.as_slice(), computed)?;
        if let Some(stored) = state_of(self.record.as_slice()) {
            let b = node_bounds(header, id / n);
            let across: u128 = (b[2] - b[0]) as u128;
            let down: u128 = (b[3] - b[1]) as u128;
            assert(across * down <= 0x7fff_ffff * 0x7fff_ffff) by (nonlinear_arith)
                requires
                    0 <= across <= 0x7fff_ffff,
                    0 <= down <= 0x7fff_ffff,
            ;
            let cells: u128 = across * down;
            if stored.count as u128 > cells {
                return Err(Error::AuditCount);
            }
        }
        self.id = id + 1;
        self.stage = Stage::Record;
        Ok(())
    }

    /// The digest of all samples and masks, and how many summaries were recomputed. Where that is
    /// asked for, the digest is the one that the header declares.
    pub fn finish(&self, header: &Header, check: bool) -> (r: Result<(String, usize), Error>)
        requires
            header.shaped(),
            self.wf(header),
            self.need(header) is Done,
        ensures
            self.tiles@.len() == leaf_records(header),
            hex_of(blake3_of(joined(self.pages@))) == header.directory_digest@,
            ({
                let digest = hex_of(blake3_of(numbered(self.tiles@)));
                if check && digest != header.logical_digest@ {
                    r is Err && r->Err_0 == Error::AuditLogical
                } else {
                    &&& r matches Ok((text, states))
                    &&& text@ == digest
                    &&& states == self.audit.checked()
                }
            }),
    {
        proof {
            header.lemma_leaves();
            lemma_leaf(header, self.id as int);
            lemma_node_past(header);
        }
        match self.audit.logical_digest(header, check) {
            Ok(digest) => Ok((digest, self.audit.verified_states())),
            Err(e) => Err(e),
        }
    }
}

/// No record is refused as cancelled work.
proof fn lemma_record_not_cancelled(header: &Header, id: int, record: Seq<u8>, length: int)
    ensures
        record_refusal(header, id, record, length) != Some(Error::Cancelled),
{
}

/// A page before the last has records.
proof fn lemma_page_there(records: int, page: int)
    requires
        records >= 1,
        0 <= page < crate::model::ceil_div(records, RECORDS_PER_PAGE as int),
    ensures
        page * RECORDS_PER_PAGE < records,
{
    crate::model::lemma_ceil_div(records, RECORDS_PER_PAGE as int);
    vstd::arithmetic::div_mod::lemma_fundamental_div_mod(
        records + RECORDS_PER_PAGE - 1,
        RECORDS_PER_PAGE as int,
    );
}

/// A record is of a node of the hierarchy.
proof fn lemma_node_there(header: &Header, id: int)
    requires
        header.shaped(),
        0 <= id < header.record_count(),
    ensures
        0 <= id / header.raw_metadata.bands@.len() as int,
        id / (header.raw_metadata.bands@.len() as int) < end_of(header.level_seq()),
{
    let n = header.raw_metadata.bands@.len() as int;
    let node = id / n;
    vstd::arithmetic::div_mod::lemma_fundamental_div_mod(id, n);
    vstd::arithmetic::div_mod::lemma_div_pos_is_pos(id, n);
    let nodes = end_of(header.level_seq());
    if node >= nodes {
        assert(n * node >= nodes * n) by (nonlinear_arith)
            requires
                node >= nodes,
                n >= 1,
        ;
    }
}

/// The records of leaves are among the records.
proof fn lemma_node_past(header: &Header)
    requires
        header.shaped(),
    ensures
        leaf_records(header) <= header.record_count(),
{
    header.lemma_leaves();
    let n = header.raw_metadata.bands@.len() as int;
    let leaves = header.leaf_count();
    let nodes = end_of(header.level_seq());
    assert(leaves * n <= nodes * n) by (nonlinear_arith)
        requires
            leaves <= nodes,
            n >= 1,
    ;
}

} // verus!
