//! The bootstrap, the directory pages and the records of a serving object.
use vstd::prelude::*;

use crate::bytes::{
    blank, field, le_at, lemma_le_blank, lemma_limits, lemma_written, put_bytes, put_le, put_u32, put_u64,
    u32_at, u64_at, zero_between,
};
use crate::cancel::{ended, Cancel};
use crate::codec::{blake3_hash, blake3_of, decode, decoded, encode, zlib_of};
use crate::error::Error;
use crate::layout::{
    box_at, edge_at, end_of, lemma_level_at, lemma_level_counts, lemma_levels, lemma_node, level_at,
};
use crate::model::{ceil_div, lemma_ceil_div};
use crate::skv_group::MAX_BYTES;
use crate::skv_header::{Header, BOOTSTRAP, MAX_OBJECT, PAGE, RECORD, RECORDS_PER_PAGE};
use crate::text::{bytes_at, same_bytes};

verus! {

pub const MAX_METADATA: usize = 65_536;

/// The first eight bytes of a serving object.
pub open spec fn magic() -> Seq<u8> {
    seq![83u8, 75, 86, 82, 65, 83, 84, 0]
}

/// The last 32 bytes are the digest of those before them.
pub open spec fn sealed(bytes: Seq<u8>) -> bool {
    &&& bytes.len() >= 32
    &&& bytes.skip(bytes.len() - 32) == blake3_of(bytes.take(bytes.len() - 32))
}

/// Whether the last 32 bytes are the digest of those before them.
pub fn is_sealed(bytes: &[u8]) -> (r: bool)
    requires
        bytes@.len() >= 32,
    ensures
        r == sealed(bytes@),
{
    let n: usize = bytes.len();
    let body = vstd::slice::slice_subrange(bytes, 0, n - 32);
    let tail = vstd::slice::slice_subrange(bytes, n - 32, n);
    let digest = blake3_hash(body);
    proof {
        assert(body@ =~= bytes@.take(n - 32));
        assert(tail@ =~= bytes@.skip(n - 32));
    }
    same_bytes(tail, digest.as_slice())
}

/// Write the digest of the other bytes into the last 32.
pub fn seal(bytes: &mut Vec<u8>)
    requires
        old(bytes)@.len() >= 32,
    ensures
        final(bytes)@.len() == old(bytes)@.len(),
        final(bytes)@.take(old(bytes)@.len() - 32) == old(bytes)@.take(old(bytes)@.len() - 32),
        sealed(final(bytes)@),
{
    let n: usize = bytes.len();
    let digest = blake3_hash(vstd::slice::slice_subrange(bytes.as_slice(), 0, n - 32));
    let ghost before = bytes@;
    put_bytes(bytes, n - 32, digest.as_slice());
    proof {
        assert(bytes@.take(n - 32) =~= before.take(n - 32));
        assert(before.subrange(0, n - 32) =~= before.take(n - 32));
        assert(bytes@.skip(n - 32) =~= bytes@.subrange(n - 32, n as int));
    }
}

/// The fixed fields of a bootstrap for an object of `length` bytes.
pub open spec fn bootstrap_fields(bytes: Seq<u8>, length: int) -> bool {
    &&& field(bytes, 8, 4) == 0
    &&& field(bytes, 12, 4) < 16
    &&& field(bytes, 16, 4) == BOOTSTRAP
    &&& field(bytes, 20, 4) == 1
    &&& field(bytes, 32, 8) == length
    &&& length <= MAX_OBJECT
    &&& field(bytes, 40, 8) == BOOTSTRAP
}

/// Bytes of the compressed metadata.
pub open spec fn stored_metadata(bytes: Seq<u8>) -> int {
    field(bytes, 24, 4) as int
}

/// Bytes of the metadata.
pub open spec fn plain_metadata(bytes: Seq<u8>) -> int {
    field(bytes, 28, 4) as int
}

/// What reading a bootstrap gives: the metadata, or why it is refused.
pub open spec fn bootstrap_of(bytes: Seq<u8>, length: int) -> Result<Seq<u8>, Error> {
    let n = stored_metadata(bytes);
    if !(bytes.len() == BOOTSTRAP && bytes.take(8) == magic()) {
        Err(Error::NotSkv)
    } else if !sealed(bytes) {
        Err(Error::BootstrapChecksum)
    } else if !bootstrap_fields(bytes, length) {
        Err(Error::BootstrapFields)
    } else if !(0 < n <= BOOTSTRAP - 96 && 0 < plain_metadata(bytes) <= MAX_METADATA) {
        Err(Error::MetadataBound)
    } else if !blank(bytes.subrange(64 + n, BOOTSTRAP - 32)) {
        Err(Error::BootstrapPadding)
    } else {
        decoded(bytes.subrange(64, 64 + n), 1, plain_metadata(bytes))
    }
}

pub(crate) fn magic_bytes() -> (r: Vec<u8>)
    ensures
        r@ == magic(),
{
    let r: Vec<u8> = vec![83, 75, 86, 82, 65, 83, 84, 0];
    assert(r@ =~= magic());
    r
}

/// Check a bootstrap and give the metadata in it.
pub fn decode_header<C: Cancel>(bytes: &[u8], length: u64, cancel: &C) -> (r: Result<
    Vec<u8>,
    Error,
>)
    ensures
        match bootstrap_of(bytes@, length as int) {
            Ok(metadata) => ended(cancel, r, r matches Ok(out) && out@ == metadata),
            Err(e) => ended(cancel, r, r == Err::<Vec<u8>, Error>(e)),
        },
{
    if bytes.len() != BOOTSTRAP {
        return Err(Error::NotSkv);
    }
    let expected = magic_bytes();
    let found = bytes_at(bytes, expected.as_slice(), 0);
    proof {
        assert(bytes@.subrange(0, 8) =~= bytes@.take(8));
    }
    if !found {
        return Err(Error::NotSkv);
    }
    if !is_sealed(bytes) {
        return Err(Error::BootstrapChecksum);
    }
    if !(u32_at(bytes, 8) == 0 && u32_at(bytes, 12) < 16 && u32_at(bytes, 16) == BOOTSTRAP as u32
        && u32_at(bytes, 20) == 1 && u64_at(bytes, 32) == length && length <= MAX_OBJECT && u64_at(
        bytes,
        40,
    ) == BOOTSTRAP as u64) {
        return Err(Error::BootstrapFields);
    }
    let n: usize = u32_at(bytes, 24) as usize;
    let plain: usize = u32_at(bytes, 28) as usize;
    if !(0 < n && n <= BOOTSTRAP - 96 && 0 < plain && plain <= MAX_METADATA) {
        return Err(Error::MetadataBound);
    }
    if !zero_between(bytes, 64 + n, BOOTSTRAP - 32) {
        return Err(Error::BootstrapPadding);
    }
    decode(vstd::slice::slice_subrange(bytes, 64, 64 + n), 1, plain, cancel)
}

/// The header that the metadata of a bootstrap spells agrees with the bootstrap.
pub open spec fn agrees(header: &Header, bytes: Seq<u8>, length: int) -> bool {
    &&& header.page_count() == field(bytes, 48, 8)
    &&& header.data_start() == field(bytes, 56, 8)
    &&& header.data_start() <= length
    &&& header.flags() == field(bytes, 12, 4)
}

/// Admit the header that the metadata of a bootstrap spells.
pub fn accept_header(header: &Header, bytes: &[u8], length: u64) -> (r: Result<(), Error>)
    requires
        bytes@.len() == BOOTSTRAP,
    ensures
        match header.refusal() {
            Some(e) => r == Err::<(), Error>(e),
            None => r == (if agrees(header, bytes@, length as int) {
                Ok::<(), Error>(())
            } else {
                Err(Error::HeaderDisagreement)
            }),
        },
        r is Ok ==> header.shaped(),
{
    header.validate()?;
    if header.pages() as u64 == u64_at(bytes, 48) && header.data_offset() == u64_at(bytes, 56)
        && header.data_offset() <= length && header.feature_flags() == u32_at(bytes, 12) {
        Ok(())
    } else {
        Err(Error::HeaderDisagreement)
    }
}

/// A bootstrap frames the metadata of a header.
pub open spec fn framed(bytes: Seq<u8>, header: &Header, metadata: Seq<u8>, length: int) -> bool {
    let encoded = zlib_of(metadata, 3);
    &&& bytes.len() == BOOTSTRAP
    &&& bytes.take(8) == magic()
    &&& sealed(bytes)
    &&& field(bytes, 8, 4) == 0
    &&& field(bytes, 12, 4) == header.flags()
    &&& field(bytes, 16, 4) == BOOTSTRAP
    &&& field(bytes, 20, 4) == 1
    &&& field(bytes, 24, 4) == encoded.len()
    &&& field(bytes, 28, 4) == metadata.len()
    &&& field(bytes, 32, 8) == length
    &&& field(bytes, 40, 8) == BOOTSTRAP
    &&& field(bytes, 48, 8) == header.page_count()
    &&& field(bytes, 56, 8) == header.data_start()
    &&& bytes.subrange(64, 64 + encoded.len() as int) == encoded
    &&& blank(bytes.subrange(64 + encoded.len() as int, BOOTSTRAP - 32))
    &&& decoded(encoded, 1, metadata.len() as int) == Ok::<Seq<u8>, Error>(metadata)
}

/// The bootstrap of a header whose metadata is `metadata`, for an object of `length` bytes.
pub fn encode_header<C: Cancel>(header: &Header, metadata: &[u8], length: u64, cancel: &C) -> (r:
    Result<Vec<u8>, Error>)
    ensures
        match header.refusal() {
            Some(e) => r == Err::<Vec<u8>, Error>(e),
            None => if metadata@.len() > MAX_METADATA {
                r == Err::<Vec<u8>, Error>(Error::MetadataBound)
            } else {
                ended(
                    cancel,
                    r,
                    if zlib_of(metadata@, 3).len() > BOOTSTRAP - 96 {
                        r == Err::<Vec<u8>, Error>(Error::MetadataBootstrap)
                    } else {
                        r matches Ok(out) && framed(out@, header, metadata@, length as int)
                    },
                )
            },
        },
{
    header.validate()?;
    if metadata.len() > MAX_METADATA {
        return Err(Error::MetadataBound);
    }
    let encoded = match encode(metadata, 1, 3, cancel) {
        Ok(v) => v,
        Err(e) => return Err(e),
    };
    let n: usize = encoded.len();
    if n > BOOTSTRAP - 96 {
        return Err(Error::MetadataBootstrap);
    }
    let flags: u32 = header.feature_flags();
    let pages: u64 = header.pages() as u64;
    let start: u64 = header.data_offset();
    let mut bytes: Vec<u8> = vec![0u8; BOOTSTRAP];
    let ghost b0 = bytes@;
    let name = magic_bytes();
    put_bytes(&mut bytes, 0, name.as_slice());
    let ghost b1 = bytes@;
    put_u32(&mut bytes, 12, flags);
    let ghost b2 = bytes@;
    put_u32(&mut bytes, 16, BOOTSTRAP as u32);
    let ghost b3 = bytes@;
    put_u32(&mut bytes, 20, 1);
    let ghost b4 = bytes@;
    put_u32(&mut bytes, 24, n as u32);
    let ghost b5 = bytes@;
    put_u32(&mut bytes, 28, metadata.len() as u32);
    let ghost b6 = bytes@;
    put_u64(&mut bytes, 32, length);
    let ghost b7 = bytes@;
    put_u64(&mut bytes, 40, BOOTSTRAP as u64);
    let ghost b8 = bytes@;
    put_u64(&mut bytes, 48, pages);
    let ghost b9 = bytes@;
    put_u64(&mut bytes, 56, start);
    let ghost b10 = bytes@;
    put_bytes(&mut bytes, 64, encoded.as_slice());
    let ghost b11 = bytes@;
    seal(&mut bytes);
    proof {
        lemma_limits();
        let b = bytes@;
        assert forall|k: int| 0 <= k < BOOTSTRAP - 32 implies b[k] == b11[k] by {
            assert(b.take(BOOTSTRAP - 32)[k] == b11.take(BOOTSTRAP - 32)[k]);
        }
        assert(forall|k: int| 0 <= k < 64 ==> b[k] == b10[k]);
        assert(b.take(8) =~= b1.subrange(0, 8));
        lemma_le_blank(b.subrange(8, 12));
        assert(b.subrange(12, 16) =~= b2.subrange(12, 16));
        assert(b.subrange(16, 20) =~= b3.subrange(16, 20));
        assert(b.subrange(20, 24) =~= b4.subrange(20, 24));
        assert(b.subrange(24, 28) =~= b5.subrange(24, 28));
        assert(b.subrange(28, 32) =~= b6.subrange(28, 32));
        assert(b.subrange(32, 40) =~= b7.subrange(32, 40));
        assert(b.subrange(40, 48) =~= b8.subrange(40, 48));
        assert(b.subrange(48, 56) =~= b9.subrange(48, 56));
        assert(b.subrange(56, 64) =~= b10.subrange(56, 64));
        lemma_written(b, 12, 4, flags as nat);
        lemma_written(b, 16, 4, BOOTSTRAP as nat);
        lemma_written(b, 20, 4, 1);
        lemma_written(b, 24, 4, n as nat);
        lemma_written(b, 28, 4, metadata@.len());
        lemma_written(b, 32, 8, length as nat);
        lemma_written(b, 40, 8, BOOTSTRAP as nat);
        lemma_written(b, 48, 8, pages as nat);
        lemma_written(b, 56, 8, start as nat);
        assert(b.subrange(64, 64 + n) =~= b11.subrange(64, 64 + n));
        crate::codec::decoding_undoes_encoding(metadata@, 1, encoded@);
    }
    Ok(bytes)
}

/// Reading the bootstrap of a header gives its metadata back, and the header is admitted.
pub proof fn bootstrap_round_trip(
    bytes: Seq<u8>,
    header: &Header,
    metadata: Seq<u8>,
    length: int,
)
    requires
        header.refusal() is None,
        0 < metadata.len() <= MAX_METADATA,
        header.data_start() <= length <= MAX_OBJECT,
        0 < zlib_of(metadata, 3).len() <= BOOTSTRAP - 96,
        framed(bytes, header, metadata, length),
    ensures
        bootstrap_of(bytes, length) == Ok::<Seq<u8>, Error>(metadata),
        agrees(header, bytes, length),
{
}

/// How many records directory page `id` of `records` holds.
pub open spec fn occupancy(records: int, id: int) -> int {
    let rest = records - id * RECORDS_PER_PAGE;
    if rest < RECORDS_PER_PAGE {
        rest
    } else {
        RECORDS_PER_PAGE as int
    }
}

pub open spec fn page_magic() -> Seq<u8> {
    seq![83u8, 75, 86, 80, 0, 0]
}

/// What a directory page is refused for, if it is.
pub open spec fn page_refusal(records: int, id: int, page: Seq<u8>) -> Option<Error> {
    let count = occupancy(records, id);
    if !(page.len() == PAGE && page.take(6) == page_magic() && field(page, 8, 8) == id) {
        Some(Error::DirectoryPage)
    } else if !sealed(page) {
        Some(Error::DirectoryChecksum)
    } else if !(field(page, 6, 2) == count && blank(
        page.subrange(16 + count * RECORD, PAGE - 32),
    )) {
        Some(Error::DirectoryOccupancy)
    } else {
        None
    }
}

fn page_magic_bytes() -> (r: Vec<u8>)
    ensures
        r@ == page_magic(),
{
    let r: Vec<u8> = vec![83, 75, 86, 80, 0, 0];
    assert(r@ =~= page_magic());
    r
}

/// How many records directory page `id` holds.
fn page_occupancy(records: usize, id: usize) -> (r: usize)
    requires
        id * RECORDS_PER_PAGE < records,
    ensures
        r == occupancy(records as int, id as int),
        1 <= r <= RECORDS_PER_PAGE,
{
    let rest: usize = records - id * RECORDS_PER_PAGE;
    if rest < RECORDS_PER_PAGE {
        rest
    } else {
        RECORDS_PER_PAGE
    }
}

/// Check one directory page.
pub fn validate_page(records: usize, id: usize, page: &[u8]) -> (r: Result<(), Error>)
    requires
        id * RECORDS_PER_PAGE < records,
    ensures
        r == (match page_refusal(records as int, id as int, page@) {
            None => Ok::<(), Error>(()),
            Some(e) => Err(e),
        }),
{
    if page.len() != PAGE {
        return Err(Error::DirectoryPage);
    }
    let name = page_magic_bytes();
    let found = bytes_at(page, name.as_slice(), 0);
    proof {
        assert(page@.subrange(0, 6) =~= page@.take(6));
    }
    if !found || u64_at(page, 8) != id as u64 {
        return Err(Error::DirectoryPage);
    }
    if !is_sealed(page) {
        return Err(Error::DirectoryChecksum);
    }
    let count: usize = page_occupancy(records, id);
    if le_at(page, 6, 2) == count as u64 && zero_between(page, 16 + count * RECORD, PAGE - 32) {
        Ok(())
    } else {
        Err(Error::DirectoryOccupancy)
    }
}

/// Directory page `id`, which holds `part`, the records that belong on it.
pub fn make_page(records: usize, id: usize, part: &[u8]) -> (page: Vec<u8>)
    requires
        id * RECORDS_PER_PAGE < records,
        part@.len() == occupancy(records as int, id as int) * RECORD,
    ensures
        page_refusal(records as int, id as int, page@) is None,
        page@.subrange(16, 16 + part@.len() as int) == part@,
{
    let count: usize = page_occupancy(records, id);
    let mut page: Vec<u8> = vec![0u8; PAGE];
    let ghost b0 = page@;
    let name = page_magic_bytes();
    put_bytes(&mut page, 0, name.as_slice());
    let ghost b1 = page@;
    put_le(&mut page, 6, 2, count as u64);
    let ghost b2 = page@;
    put_u64(&mut page, 8, id as u64);
    let ghost b3 = page@;
    put_bytes(&mut page, 16, part);
    let ghost b4 = page@;
    seal(&mut page);
    proof {
        lemma_limits();
        let b = page@;
        assert forall|k: int| 0 <= k < PAGE - 32 implies b[k] == b4[k] by {
            assert(b.take(PAGE - 32)[k] == b4.take(PAGE - 32)[k]);
        }
        assert(b.take(6) =~= b1.subrange(0, 6));
        assert(b.subrange(6, 8) =~= b2.subrange(6, 8));
        assert(b.subrange(8, 16) =~= b3.subrange(8, 16));
        lemma_written(b, 6, 2, count as nat);
        lemma_written(b, 8, 8, id as nat);
        assert(b.subrange(16, 16 + part@.len() as int) =~= b4.subrange(16, 16 + part@.len() as int));
    }
    page
}

/// Where the record `id` stands in its page.
pub open spec fn record_start(id: int) -> int {
    16 + id % RECORDS_PER_PAGE as int * RECORD
}

/// The fields of a record.
pub open spec fn rec_begin(r: Seq<u8>) -> int {
    field(r, 0, 8) as int
}

pub open spec fn rec_encoded(r: Seq<u8>) -> int {
    field(r, 8, 4) as int
}

pub open spec fn rec_decoded(r: Seq<u8>) -> int {
    field(r, 12, 4) as int
}

pub open spec fn rec_samples(r: Seq<u8>) -> int {
    field(r, 16, 8) as int
}

pub open spec fn rec_codec(r: Seq<u8>) -> int {
    field(r, 24, 4) as int
}

pub open spec fn rec_flags(r: Seq<u8>) -> int {
    field(r, 28, 4) as int
}

pub open spec fn rec_digest(r: Seq<u8>) -> Seq<u8> {
    r.subrange(32, 64)
}

pub open spec fn rec_id(r: Seq<u8>) -> int {
    field(r, 104, 8) as int
}

pub open spec fn rec_leader(r: Seq<u8>) -> int {
    field(r, 112, 8) as int
}

pub open spec fn rec_members(r: Seq<u8>) -> int {
    field(r, 120, 4) as int
}

/// A record of a leaf, and one with a summary.
pub open spec fn rec_leaf(r: Seq<u8>) -> bool {
    rec_flags(r) % 2 == 1
}

pub open spec fn rec_summary(r: Seq<u8>) -> bool {
    rec_flags(r) / 2 % 2 == 1
}

/// Cells of the node of a record.
pub open spec fn node_cells(header: &Header, node: int) -> int {
    let b = box_at(
        header.level_seq(),
        header.chunk_edge as int,
        header.grid.width as int,
        header.grid.height as int,
        node,
    );
    (b.2 - b.0) * (b.3 - b.1)
}

/// The payload fields of a leaf record fit its header and the object.
pub open spec fn leaf_refusal(header: &Header, id: int, r: Seq<u8>, length: int) -> Option<Error> {
    let n = header.raw_metadata.bands@.len() as int;
    let cells = node_cells(header, id / n);
    let samples = cells * header.widths()[id % n];
    let (leader, count) = header.canonical(id);
    let plain = (samples + cells) * count;
    if header.grouped_spec() && !(rec_leader(r) == leader && rec_members(r) == count && plain
        <= MAX_BYTES) {
        Some(Error::RecordGroup)
    } else if !header.grouped_spec() && !blank(r.subrange(112, 128)) {
        Some(Error::RecordGroupFields)
    } else if !(samples == rec_samples(r) && plain == rec_decoded(r) && 0 < rec_encoded(r)
        <= 4194304 && (header.grouped_spec() ==> rec_encoded(r) <= plain) && rec_begin(r)
        >= header.data_start() && rec_begin(r) + rec_encoded(r) <= length && rec_codec(r) <= 1) {
        Some(Error::RecordShape)
    } else if rec_codec(r) == 0 && rec_encoded(r) != plain {
        Some(Error::RecordRawLength)
    } else {
        None
    }
}

/// What a record is refused for, if it is. Whether a stored summary is one that values can
/// have is not asked here.
pub open spec fn record_refusal(header: &Header, id: int, r: Seq<u8>, length: int) -> Option<
    Error,
> {
    let n = header.raw_metadata.bands@.len() as int;
    let leaf = id / n < header.leaf_count();
    if !(rec_id(r) == id && blank(r.subrange(124, 128)) && rec_flags(r) < 4) {
        Some(Error::RecordFeatures)
    } else if rec_leaf(r) != leaf {
        Some(Error::RecordKind)
    } else if leaf && leaf_refusal(header, id, r, length) is Some {
        leaf_refusal(header, id, r, length)
    } else if !leaf && !(blank(r.subrange(0, 28)) && blank(r.subrange(32, 64)) && blank(
        r.subrange(112, 128),
    )) {
        Some(Error::RecordParent)
    } else if !rec_summary(r) && !blank(r.subrange(64, 104)) {
        Some(Error::RecordSummary)
    } else if header.summaries && !rec_summary(r) {
        Some(Error::RecordSummaryMissing)
    } else {
        None
    }
}

/// The sums, count and extremes of a node, as the bits that a record stores.
#[derive(Clone, Copy, Debug, PartialEq, Eq, Structural)]
pub struct SummaryBits {
    pub sum_high: u64,
    pub sum_low: u64,
    pub count: u64,
    pub min: u64,
    pub max: u64,
}

pub open spec fn summary_of(r: Seq<u8>) -> Option<SummaryBits> {
    if rec_summary(r) {
        Some(
            SummaryBits {
                sum_high: field(r, 64, 8) as u64,
                sum_low: field(r, 72, 8) as u64,
                count: field(r, 80, 8) as u64,
                min: field(r, 88, 8) as u64,
                max: field(r, 96, 8) as u64,
            },
        )
    } else {
        None
    }
}

/// The summary that a record stores, if it stores one.
pub fn state_of(record: &[u8]) -> (r: Option<SummaryBits>)
    requires
        record@.len() == RECORD,
    ensures
        r == summary_of(record@),
{
    if u32_at(record, 28) / 2 % 2 == 0 {
        None
    } else {
        Some(
            SummaryBits {
                sum_high: u64_at(record, 64),
                sum_low: u64_at(record, 72),
                count: u64_at(record, 80),
                min: u64_at(record, 88),
                max: u64_at(record, 96),
            },
        )
    }
}

/// A tile has no more cells than its edge gives.
pub proof fn lemma_leaf_cells(header: &Header, node: int)
    requires
        header.shaped(),
        0 <= node < header.leaf_count(),
    ensures
        node < end_of(header.level_seq()),
        ({
            let b = box_at(
                header.level_seq(),
                header.chunk_edge as int,
                header.grid.width as int,
                header.grid.height as int,
                node,
            );
            &&& 0 < b.2 - b.0 <= header.chunk_edge
            &&& 0 < b.3 - b.1 <= header.chunk_edge
            &&& 0 < (b.2 - b.0) * (b.3 - b.1) <= 65536
        }),
{
    let w = header.grid.width as int;
    let h = header.grid.height as int;
    let e = header.chunk_edge as int;
    let levels = header.level_seq();
    lemma_ceil_div(w, e);
    lemma_ceil_div(h, e);
    lemma_levels(ceil_div(w, e), ceil_div(h, e), 0, false);
    lemma_node(w, h, e, false, node);
    lemma_level_at(levels, node);
    lemma_level_counts(w, h, e, false, 0);
    let k = level_at(levels, node);
    assert(k == 0) by {
        if k > 0 {
            assert(levels[0].2 + levels[0].0 * levels[0].1 == levels[1].2);
            assert(levels[1].2 <= levels[k].2) by {
                if k > 1 {
                    assert(levels[1].2 < levels[k].2);
                }
            }
        }
    }
    vstd::arithmetic::power2::lemma2_to64();
    assert(edge_at(e, 0) == e * 1);
    let b = box_at(levels, e, w, h, node);
    let dx = b.2 - b.0;
    let dy = b.3 - b.1;
    assert(0 < dx * dy <= 65536) by (nonlinear_arith)
        requires
            0 < dx <= 256,
            0 < dy <= 256,
    ;
}

pub proof fn lemma_plain_bound(cells: int, scalar: int, count: int)
    requires
        0 < cells <= 65536,
        0 < scalar <= 8,
        0 < count <= 64,
    ensures
        0 < cells * scalar <= 524288,
        0 < (cells * scalar + cells) * count <= 37748736,
{
    assert(0 < cells * scalar <= 524288) by (nonlinear_arith)
        requires
            0 < cells <= 65536,
            0 < scalar <= 8,
    ;
    let b = cells * scalar + cells;
    assert(0 < b * count <= 37748736) by (nonlinear_arith)
        requires
            0 < b <= 589824,
            0 < count <= 64,
    ;
}

/// Check one record, and give the summary that it stores.
pub fn validate_record(header: &Header, id: usize, record: &[u8], length: u64) -> (r: Result<
    Option<SummaryBits>,
    Error,
>)
    requires
        header.shaped(),
        id < header.record_count(),
        record@.len() == RECORD,
    ensures
        r == (match record_refusal(header, id as int, record@, length as int) {
            None => Ok::<Option<SummaryBits>, Error>(summary_of(record@)),
            Some(e) => Err(e),
        }),
{
    let flags: u32 = u32_at(record, 28);
    if !(u64_at(record, 104) == id as u64 && zero_between(record, 124, 128) && flags < 4) {
        return Err(Error::RecordFeatures);
    }
    let n: usize = header.bands();
    let node: usize = id / n;
    let band: usize = id % n;
    let leaf = node < header.leaves();
    if (flags % 2 == 1) != leaf {
        return Err(Error::RecordKind);
    }
    if leaf {
        proof {
            lemma_leaf_cells(header, node as int);
        }
        let tile = node_bounds(header, node);
        let cells: usize = (tile[2] - tile[0]) * (tile[3] - tile[1]);
        let scalar: usize = header.raw_metadata.bands[band].scalar_type.byte_width();
        let (leader, count) = match header.canonical_group(id) {
            Ok(g) => g,
            Err(e) => return Err(e),
        };
        proof {
            assert(scalar == header.widths()[band as int]);
            assert(count <= 64);
            lemma_plain_bound(cells as int, scalar as int, count as int);
        }
        let samples: usize = cells * scalar;
        let plain: usize = (samples + cells) * count;
        let grouped = header.grouped();
        if grouped {
            if !(u64_at(record, 112) == leader as u64 && u32_at(record, 120) == count as u32
                && plain <= MAX_BYTES) {
                return Err(Error::RecordGroup);
            }
        } else if !zero_between(record, 112, 128) {
            return Err(Error::RecordGroupFields);
        }
        let begin: u64 = u64_at(record, 0);
        let encoded: u32 = u32_at(record, 8);
        let codec: u32 = u32_at(record, 24);
        let inside = match begin.checked_add(encoded as u64) {
            Some(end) => end <= length,
            None => false,
        };
        if !(samples as u64 == u64_at(record, 16) && plain as u64 == u32_at(record, 12) as u64 && 0
            < encoded && encoded <= 4194304 && (!grouped || encoded as u64 <= plain as u64) && begin
            >= header.data_offset() && inside && codec <= 1) {
            return Err(Error::RecordShape);
        }
        if codec == 0 && encoded as u64 != plain as u64 {
            return Err(Error::RecordRawLength);
        }
    } else if !(zero_between(record, 0, 28) && zero_between(record, 32, 64) && zero_between(
        record,
        112,
        128,
    )) {
        return Err(Error::RecordParent);
    }
    let state = state_of(record);
    if state.is_none() && !zero_between(record, 64, 104) {
        return Err(Error::RecordSummary);
    }
    if header.summaries && state.is_none() {
        return Err(Error::RecordSummaryMissing);
    }
    Ok(state)
}

/// The cells of a node of the header's grid.
pub fn node_bounds(header: &Header, node: usize) -> (r: [usize; 4])
    requires
        header.shaped(),
        node < end_of(header.level_seq()),
    ensures
        ({
            let b = box_at(
                header.level_seq(),
                header.chunk_edge as int,
                header.grid.width as int,
                header.grid.height as int,
                node as int,
            );
            r[0] == b.0 && r[1] == b.1 && r[2] == b.2 && r[3] == b.3
        }),
        r[0] < r[2] <= header.grid.width,
        r[1] < r[3] <= header.grid.height,
{
    let layout = header.layout();
    proof {
        lemma_node(
            header.grid.width as int,
            header.grid.height as int,
            header.chunk_edge as int,
            false,
            node as int,
        );
    }
    match layout.bounds(header.grid.width, header.grid.height, node) {
        Ok(b) => b,
        Err(_) => [0, 0, 1, 1],
    }
}

} // verus!
