//! Opening a serving object as a source, and what its reads take.
use vstd::prelude::*;
use vstd::string::StringSliceAdditionalSpecFns;

use crate::codec::{blake3_hash, blake3_of, hex_of, to_hex};
use crate::digits::{decimal_of, push_decimal};
use crate::error::Error;
use crate::layout::min_of;
use crate::profile_text::{json_string, push_numbers, quoted, with_numbers};
use crate::skv_header::{digest_text, is_digest_text, Header, MAX_LEAF_RECORDS, PAGE};
use crate::skv_reader::{MAX_READS, PAGE_CACHE};
use crate::source::{
    distinct, validate_source_spec, ContentIdentity, RawScalarType, SourceSpec, VerificationPolicy,
};
use crate::source_buffer::RawBound;
use crate::source_open::lower_digest;
use crate::source_raw::{overhead, source_window_overhead};
use crate::source_window::ReadBound;
use crate::text::{same, utf8};

verus! {

/// The most that an open source may retain.
pub const NATIVE_SOURCE_RETAINED_BYTES: usize = 16777216;

/// Why a specification does not open a serving object, if it does not.
pub open spec fn selector_refusal(spec: SourceSpec) -> Option<Error> {
    if spec.refusal() is Some {
        spec.refusal()
    } else if !(spec.variable is None && spec.overview is None && spec.longitude_shift == 0) {
        Some(Error::SkvSelectors)
    } else {
        None
    }
}

/// Check a specification before anything is read.
pub fn check_selectors(spec: &SourceSpec) -> (r: Result<(), Error>)
    ensures
        r == (match selector_refusal(*spec) {
            Some(e) => Err::<(), Error>(e),
            None => Ok(()),
        }),
{
    validate_source_spec(spec)?;
    if !(spec.variable.is_none() && spec.overview.is_none() && spec.longitude_shift == 0) {
        return Err(Error::SkvSelectors);
    }
    Ok(())
}

/// Why a declared identity is not that of an object of `length` bytes, if it is not. A remote
/// object has an ETag.
pub open spec fn identity_refusal(
    identity: ContentIdentity,
    length: int,
    etag: Option<Seq<char>>,
) -> Option<Error> {
    if !(identity.byte_length == length && digest_text(utf8(identity.sha256@))) {
        Some(Error::SkvIdentity)
    } else if etag is Some && identity.etag is Some && identity.etag->0@ != etag->0 {
        Some(Error::SkvEtag)
    } else if etag is Some && identity.policy == VerificationPolicy::TrustedManifest
        && identity.etag is None {
        Some(Error::SkvManifest)
    } else {
        None
    }
}

/// Why an object with this header is not the one that a specification names, if it is not.
pub open spec fn object_refusal(
    spec: SourceSpec,
    header: &Header,
    length: int,
    etag: Option<Seq<char>>,
) -> Option<Error> {
    if spec.crs is Some && spec.crs->0@ != header.grid.crs@ {
        Some(Error::SkvCrs)
    } else if spec.identity is Some {
        identity_refusal(spec.identity->0, length, etag)
    } else {
        None
    }
}

/// Hold an object against the specification that names it.
pub fn check_object(spec: &SourceSpec, header: &Header, length: u64, etag: Option<&str>) -> (r: Result<
    (),
    Error,
>)
    ensures
        r == (match object_refusal(
            *spec,
            header,
            length as int,
            match etag {
                Some(etag) => Some(etag@),
                None => None,
            },
        ) {
            Some(e) => Err::<(), Error>(e),
            None => Ok(()),
        }),
{
    if let Some(crs) = &spec.crs {
        if !same(crs.as_str(), header.grid.crs.as_str()) {
            return Err(Error::SkvCrs);
        }
    }
    if let Some(identity) = &spec.identity {
        if !(identity.byte_length == length && is_digest_text(identity.sha256.as_str())) {
            return Err(Error::SkvIdentity);
        }
        if let Some(etag) = etag {
            match &identity.etag {
                Some(expected) => {
                    if !same(expected.as_str(), etag) {
                        return Err(Error::SkvEtag);
                    }
                },
                None => {
                    if identity.policy == VerificationPolicy::TrustedManifest {
                        return Err(Error::SkvManifest);
                    }
                },
            }
        }
    }
    Ok(())
}

/// How many bytes the next step of a complete content scan reads.
pub fn scan_step(length: u64, offset: u64, max_range: u64) -> (r: u64)
    requires
        offset <= length,
    ensures
        r == min_of(length - offset, min_of(max_range as int, 4194304)),
{
    let most: u64 = if max_range < 4194304 {
        max_range
    } else {
        4194304
    };
    if length - offset < most {
        length - offset
    } else {
        most
    }
}

/// A byte with its letter in lower case.
pub open spec fn lower_byte(b: u8) -> u8 {
    if 65 <= b <= 90 {
        (b + 32) as u8
    } else {
        b
    }
}

/// A text is another one in lower case.
pub open spec fn lowered(text: Seq<u8>, whole: Seq<u8>) -> bool {
    &&& text.len() == whole.len()
    &&& forall|i: int| 0 <= i < text.len() ==> #[trigger] text[i] == lower_byte(whole[i])
}

/// Whether a computed digest is the declared one, whatever the case of its letters.
pub fn digest_matches(computed: &str, declared: &str) -> (r: bool)
    ensures
        r == lowered(utf8(computed@), utf8(declared@)),
{
    let a = computed.as_bytes();
    let b = declared.as_bytes();
    if a.len() != b.len() {
        return false;
    }
    let mut i: usize = 0;
    while i < a.len()
        invariant
            i <= a@.len(),
            a@.len() == b@.len(),
            a@ == utf8(computed@),
            b@ == utf8(declared@),
            forall|k: int| 0 <= k < i ==> #[trigger] a@[k] == lower_byte(b@[k]),
        decreases a@.len() - i,
    {
        let c: u8 = b[i];
        let low: u8 = if 65 <= c && c <= 90 {
            c + 32
        } else {
            c
        };
        if a[i] != low {
            assert(a@[i as int] != lower_byte(b@[i as int]));
            return false;
        }
        i += 1;
    }
    true
}

/// The stored bands that a specification exposes, in its order.
pub open spec fn mapping_of(spec: SourceSpec, bands: int) -> Seq<usize> {
    match spec.bands {
        Some(ids) => ids@,
        None => Seq::new(bands as nat, |i: int| i as usize),
    }
}

/// A mapping exposes up to 64 stored bands, each once.
pub open spec fn mapping_ok(mapping: Seq<usize>, bands: int) -> bool {
    &&& 0 < mapping.len() <= 64
    &&& forall|i: int| 0 <= i < mapping.len() ==> (#[trigger] mapping[i]) < bands
    &&& mapping.no_duplicates()
}

/// The mapping of a specification.
pub fn band_mapping(spec: &SourceSpec, bands: usize) -> (r: Result<Vec<usize>, Error>)
    ensures
        if mapping_ok(mapping_of(*spec, bands as int), bands as int) {
            r matches Ok(mapping) && mapping@ == mapping_of(*spec, bands as int)
        } else {
            r is Err && r->Err_0 == Error::SkvMapping
        },
{
    let mut mapping: Vec<usize> = Vec::new();
    match &spec.bands {
        Some(ids) => {
            let mut i: usize = 0;
            while i < ids.len()
                invariant
                    i <= ids@.len(),
                    mapping@ == ids@.take(i as int),
                decreases ids@.len() - i,
            {
                mapping.push(ids[i]);
                assert(mapping@ =~= ids@.take(i + 1));
                i += 1;
            }
            assert(ids@.take(ids@.len() as int) =~= ids@);
        },
        None => {
            let mut i: usize = 0;
            while i < bands
                invariant
                    i <= bands,
                    mapping@.len() == i,
                    forall|k: int| 0 <= k < i ==> mapping@[k] == k,
                decreases bands - i,
            {
                mapping.push(i);
                i += 1;
            }
            assert(mapping@ =~= mapping_of(*spec, bands as int));
        },
    }
    if !(mapping.len() > 0 && mapping.len() <= 64 && below(mapping.as_slice(), bands) && distinct(
        mapping.as_slice(),
    )) {
        return Err(Error::SkvMapping);
    }
    Ok(mapping)
}

fn below(values: &[usize], n: usize) -> (r: bool)
    ensures
        r == forall|i: int| 0 <= i < values@.len() ==> (#[trigger] values@[i]) < n,
{
    let mut i: usize = 0;
    while i < values.len()
        invariant
            i <= values@.len(),
            forall|k: int| 0 <= k < i ==> (#[trigger] values@[k]) < n,
        decreases values@.len() - i,
    {
        if values[i] >= n {
            assert(values@[i as int] >= n);
            return false;
        }
        i += 1;
    }
    true
}

/// Bytes of what a reader keeps one of: a cached page beside its bytes, a visited interval, a
/// traced read and a remote range.
#[derive(Clone, Copy, Debug, PartialEq, Eq, Structural)]
pub struct RetainedSizes {
    pub page: usize,
    pub interval: usize,
    pub read: usize,
    pub range: usize,
}

/// How many visited intervals a reader keeps.
pub open spec fn intervals_kept(header: &Header) -> int {
    if header.ordered_large() {
        MAX_LEAF_RECORDS as int
    } else {
        header.leaf_count() * header.groups_spec()
    }
}

/// What a reader retains: its cache, its pages, intervals and traces, and two megabytes for
/// the header, its decoded metadata and the client.
pub open spec fn retained_of(header: &Header, cache_bytes: int, sizes: RetainedSizes) -> int {
    cache_bytes + PAGE_CACHE * (PAGE + sizes.page) + intervals_kept(header) * sizes.interval + 4096
        * sizes.read + MAX_READS * sizes.range + 2097152
}

/// The capacity that a reader retains, where it is admitted.
pub fn retained_capacity(header: &Header, cache_bytes: usize, sizes: RetainedSizes) -> (r: Result<
    usize,
    Error,
>)
    requires
        header.shaped(),
        cache_bytes <= 8388608,
        sizes.page <= 1024,
        sizes.interval <= 1024,
        sizes.read <= 1024,
        sizes.range <= 1024,
    ensures
        r == (if retained_of(header, cache_bytes as int, sizes) > NATIVE_SOURCE_RETAINED_BYTES {
            Err::<usize, Error>(Error::SkvRetained)
        } else {
            Ok(retained_of(header, cache_bytes as int, sizes) as usize)
        }),
{
    let kept: u64 = if header.ordered_large_payloads() {
        MAX_LEAF_RECORDS as u64
    } else {
        let groups: usize = header.groups_per_tile();
        let leaves: usize = header.leaves();
        proof {
            let a = leaves as int;
            let b = groups as int;
            assert(0 <= a * b <= 1073741824) by (nonlinear_arith)
                requires
                    0 <= a <= 16777216,
                    0 <= b <= 64,
            ;
        }
        leaves as u64 * groups as u64
    };
    proof {
        let k = kept as int;
        let s = sizes.interval as int;
        assert(0 <= k * s <= 1073741824 * 1024) by (nonlinear_arith)
            requires
                0 <= k <= 1073741824,
                0 <= s <= 1024,
        ;
    }
    let retained: u64 = cache_bytes as u64 + PAGE_CACHE as u64 * (PAGE as u64 + sizes.page as u64)
        + kept * sizes.interval as u64 + 4096 * sizes.read as u64 + MAX_READS as u64
        * sizes.range as u64 + 2097152;
    if retained > NATIVE_SOURCE_RETAINED_BYTES as u64 {
        return Err(Error::SkvRetained);
    }
    Ok(retained as usize)
}

/// A reader that failed answers nothing more until it is opened again.
#[derive(Clone, Copy, Debug, PartialEq, Eq, Structural)]
pub struct Guard {
    pub invalidated: bool,
}

impl Guard {
    /// Begin an operation.
    pub fn begin(&self) -> (r: Result<(), Error>)
        ensures
            r == (if self.invalidated {
                Err::<(), Error>(Error::SkvInvalidated)
            } else {
                Ok(())
            }),
    {
        if self.invalidated {
            Err(Error::SkvInvalidated)
        } else {
            Ok(())
        }
    }

    /// End an operation: one that failed ends the use of the reader.
    pub fn end<T>(&mut self, result: &Result<T, Error>)
        ensures
            final(self).invalidated == (old(self).invalidated || result is Err),
    {
        if result.is_err() {
            self.invalidated = true;
        }
    }
}

/// Why a window of an object is not read, if it is not.
pub open spec fn window_refusal(
    width: int,
    height: int,
    mapped: int,
    window: (int, int, int, int),
    bands: Seq<usize>,
) -> Option<Error> {
    if !(window.2 > 0 && window.3 > 0 && window.0 + window.2 <= width && window.1 + window.3
        <= height) {
        Some(Error::SkvWindow)
    } else if !mapping_ok(bands, mapped) {
        Some(Error::SkvBands)
    } else if window.2 * window.3 > usize::MAX {
        Some(Error::SkvWindowSize)
    } else {
        None
    }
}

/// Check a window, and count its cells.
pub fn validate_window(
    width: usize,
    height: usize,
    mapped: usize,
    x: usize,
    y: usize,
    w: usize,
    h: usize,
    bands: &[usize],
) -> (r: Result<usize, Error>)
    ensures
        match window_refusal(
            width as int,
            height as int,
            mapped as int,
            (x as int, y as int, w as int, h as int),
            bands@,
        ) {
            Some(e) => r == Err::<usize, Error>(e),
            None => r == Ok::<usize, Error>((w * h) as usize) && w * h <= usize::MAX,
        },
{
    let inside = w > 0 && h > 0 && match x.checked_add(w) {
        Some(n) => n <= width,
        None => false,
    } && match y.checked_add(h) {
        Some(n) => n <= height,
        None => false,
    };
    if !inside {
        return Err(Error::SkvWindow);
    }
    if !(bands.len() > 0 && bands.len() <= 64 && below(bands, mapped) && distinct(bands)) {
        return Err(Error::SkvBands);
    }
    match w.checked_mul(h) {
        Some(cells) => Ok(cells),
        None => Err(Error::SkvWindowSize),
    }
}

/// Bytes of a cell over the first `k` bands, its masks included.
pub open spec fn cell_bytes(scalars: Seq<RawScalarType>, bands: Seq<usize>, k: nat) -> int
    decreases k,
{
    if k == 0 {
        0
    } else {
        cell_bytes(scalars, bands, (k - 1) as nat) + scalars[bands[k - 1] as int].width() + 1
    }
}

/// The memory that a read of original samples takes: its output, and eight megabytes for the
/// encoded range, the decoded chunk and the predictor.
pub open spec fn raw_bound_of(scalars: Seq<RawScalarType>, w: int, h: int, bands: Seq<usize>) -> Result<
    usize,
    Error,
> {
    if !(0 < bands.len() <= 64) {
        Err(Error::SkvReadBands)
    } else if exists|i: int| 0 <= i < bands.len() && #[trigger] bands[i] >= scalars.len() {
        Err(Error::SkvBandRange)
    } else if w * h > usize::MAX || w * h * cell_bytes(scalars, bands, bands.len()) + 8388608
        > usize::MAX {
        Err(Error::SkvReadBound)
    } else {
        Ok((w * h * cell_bytes(scalars, bands, bands.len()) + 8388608) as usize)
    }
}

/// The sample types that an open object exposes.
#[derive(Debug)]
pub struct SkvBounds {
    pub scalars: Vec<RawScalarType>,
}

impl SkvBounds {
    pub fn raw_read_buffer_bound(&self, w: usize, h: usize, bands: &[usize]) -> (r: Result<
        usize,
        Error,
    >)
        ensures
            r == raw_bound_of(self.scalars@, w as int, h as int, bands@),
            r != Err::<usize, Error>(Error::Cancelled),
    {
        if bands.len() == 0 || bands.len() > 64 {
            return Err(Error::SkvReadBands);
        }
        let mut per_cell: usize = 0;
        let mut i: usize = 0;
        while i < bands.len()
            invariant
                i <= bands@.len(),
                0 < bands@.len() <= 64,
                per_cell == cell_bytes(self.scalars@, bands@, i as nat),
                per_cell <= i * 9,
                forall|k: int| 0 <= k < i ==> (#[trigger] bands@[k]) < self.scalars@.len(),
            decreases bands@.len() - i,
        {
            let band: usize = bands[i];
            if band >= self.scalars.len() {
                assert(bands@[i as int] >= self.scalars@.len());
                return Err(Error::SkvBandRange);
            }
            per_cell = per_cell + self.scalars[band].byte_width() + 1;
            i += 1;
        }
        let cells: usize = match w.checked_mul(h) {
            Some(cells) => cells,
            None => return Err(Error::SkvReadBound),
        };
        let bytes: usize = match cells.checked_mul(per_cell) {
            Some(bytes) => bytes,
            None => return Err(Error::SkvReadBound),
        };
        match bytes.checked_add(8388608) {
            Some(bound) => Ok(bound),
            None => Err(Error::SkvReadBound),
        }
    }
}

/// A serving object needs the same wherever a window lies.
impl RawBound for SkvBounds {
    open spec fn raw_bound(&self, window: Seq<usize>, bands: Seq<usize>) -> Result<usize, Error> {
        raw_bound_of(self.scalars@, window[2] as int, window[3] as int, bands)
    }

    fn raw_read_buffer_bound_at(
        &self,
        _x: usize,
        _y: usize,
        width: usize,
        height: usize,
        bands: &[usize],
    ) -> (r: Result<usize, Error>) {
        self.raw_read_buffer_bound(width, height, bands)
    }
}

/// The memory that a read of values takes: the original samples, and beside them the values
/// and their validity.
pub open spec fn value_bound_of(
    scalars: Seq<RawScalarType>,
    w: int,
    h: int,
    bands: Seq<usize>,
) -> Result<usize, Error> {
    match raw_bound_of(scalars, w, h, bands) {
        Err(e) => Err(e),
        Ok(raw) => if w * h * (bands.len() * 9) > usize::MAX {
            Err(Error::SkvValueSize)
        } else if raw + w * h * (bands.len() * 9) + overhead(bands.len() as int) > usize::MAX {
            Err(Error::SkvValueBuffer)
        } else {
            Ok((raw + w * h * (bands.len() * 9) + overhead(bands.len() as int)) as usize)
        },
    }
}

/// Reads of some bands of an open object.
pub struct SkvWindow<'a> {
    pub bounds: &'a SkvBounds,
    pub bands: &'a [usize],
}

impl<'a> ReadBound for SkvWindow<'a> {
    open spec fn bound(&self, width: int, height: int) -> Result<usize, Error> {
        value_bound_of(self.bounds.scalars@, width, height, self.bands@)
    }

    fn read_buffer_bound(&self, width: usize, height: usize) -> (r: Result<usize, Error>) {
        let raw: usize = match self.bounds.raw_read_buffer_bound(width, height, self.bands) {
            Ok(raw) => raw,
            Err(e) => return Err(e),
        };
        let n: usize = self.bands.len();
        let cells: usize = width * height;
        let values: usize = match cells.checked_mul(n * 9) {
            Some(values) => values,
            None => return Err(Error::SkvValueSize),
        };
        match raw.checked_add(values) {
            None => Err(Error::SkvValueBuffer),
            Some(bytes) => match bytes.checked_add(source_window_overhead(n)) {
                None => Err(Error::SkvValueBuffer),
                Some(bytes) => Ok(bytes),
            },
        }
    }
}

/// What a serving object is identified by: its declared content, or else its generation.
pub open spec fn served_text(sha256: Option<Seq<char>>, generation: Seq<char>, length: u64) -> Seq<char> {
    "{\"byte_length\":"@ + decimal_of(length as nat) + match sha256 {
        Some(sha256) => ",\"content_sha256\":"@ + quoted(sha256),
        None => ",\"generation\":"@ + quoted(generation),
    } + "}"@
}

/// The text whose digest identifies a view of a serving object.
pub open spec fn serving_text(
    root: Seq<char>,
    mapping: Seq<usize>,
    sha256: Option<Seq<char>>,
    generation: Seq<char>,
    length: u64,
) -> Seq<char> {
    with_numbers("{\"band_mapping\":["@, mapping) + "],\"bootstrap_blake3\":"@ + quoted(root)
        + ",\"serving_identity\":"@ + served_text(sha256, generation, length) + "}"@
}

/// The digest of a bootstrap, under which its object is described.
pub fn root_digest(bootstrap: &[u8]) -> (r: String)
    ensures
        r@ == hex_of(blake3_of(bootstrap@)),
        r@.len() == 64,
{
    to_hex(blake3_hash(bootstrap).as_slice())
}

/// The identity under which a view of a serving object is known: of its bootstrap, the bands
/// that it exposes, and its declared content in lower case or else its generation.
pub fn serving_source_id(
    bootstrap: &[u8],
    mapping: &[usize],
    identity: &Option<ContentIdentity>,
    generation: &str,
    length: u64,
) -> (r: String)
    requires
        identity is Some ==> digest_text(utf8(identity->0.sha256@)),
    ensures
        exists|sha256: Option<Seq<char>>|
            {
                &&& sha256 is Some == identity is Some
                &&& identity is Some ==> lowered(utf8(sha256->0), utf8(identity->0.sha256@))
                &&& r@ == "skv-v0-source:"@ + hex_of(
                    blake3_of(
                        utf8(
                            #[trigger] serving_text(
                                hex_of(blake3_of(bootstrap@)),
                                mapping@,
                                sha256,
                                generation@,
                                length,
                            ),
                        ),
                    ),
                )
            },
{
    let root: String = root_digest(bootstrap);
    let mut text: String = "{\"band_mapping\":[".to_owned();
    push_numbers(&mut text, mapping);
    text.append("],\"bootstrap_blake3\":");
    text.append(json_string(root.as_str()).as_str());
    text.append(",\"serving_identity\":");
    let ghost start = text@;
    let ghost mut sha256: Option<Seq<char>> = None;
    text.append("{\"byte_length\":");
    push_decimal(&mut text, length);
    match identity {
        Some(identity) => {
            let lower: String = lower_digest(identity);
            text.append(",\"content_sha256\":");
            text.append(json_string(lower.as_str()).as_str());
            proof {
                sha256 = Some(lower@);
            }
        },
        None => {
            text.append(",\"generation\":");
            text.append(json_string(generation).as_str());
        },
    }
    text.append("}");
    assert(text@ =~= start + served_text(sha256, generation@, length));
    text.append("}");
    assert(text@ =~= serving_text(root@, mapping@, sha256, generation@, length));
    let key: String = to_hex(blake3_hash(text.as_str().as_bytes()).as_slice());
    let mut r: String = "skv-v0-source:".to_owned();
    r.append(key.as_str());
    r
}

} // verus!
