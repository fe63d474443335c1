//! One-shot representation selection under an explicit owner-provisioned proof.
//! An attestation is trusted provenance, not a cryptographic proof of equality.
use vstd::prelude::*;
use vstd::string::StringSliceAdditionalSpecFns;

use crate::digits::{bits_of, bits_text, hex_digits, lower_hex, lower_hex_bytes, value_of};
use crate::error::Error;
use crate::model::{Grid, MAX_CRS_BYTES, MAX_SIDE};
use crate::profile_text::{
    expected_view_sha256, interpretation_sha256, selector_sha256, selector_text, text_digest,
    view_text, ExpectedBand, ExpectedGrid, ExpectedRawMetadata, ExpectedView,
};
use crate::skv_header::{finite_bits, is_finite_bits};
use crate::source::{
    distinct, validate_source_spec, RawBandMetadata, RawRasterMetadata, RawScalarType, SourceSpec,
};
use crate::text::{byte_len, same, utf8};

verus! {

pub const SCHEMA: &'static str = "skarve_serving_profile_v1";

pub const MAX_PROFILE_BYTES: usize = 65_536;

pub const PROFILE_WORKING_BYTES: usize = 4194304;

pub const SOURCE_RETAINED_BYTES: usize = 16777216;

pub const SOURCE_OPEN_BYTES: usize = 33554432;

/// A source and the view that it must show.
pub struct Candidate {
    pub spec: SourceSpec,
    pub expected: ExpectedView,
}

/// What the owner pins of one object.
#[derive(Debug)]
pub struct ObjectAttestation {
    pub sha256: String,
    pub byte_length: u64,
    pub selector_sha256: String,
    pub expected_view_sha256: String,
}

/// The owner's statement that two objects show the same view.
#[derive(Debug)]
pub struct Attestation {
    pub kind: String,
    pub verifier: String,
    pub receipt_sha256: String,
    pub checks: Vec<String>,
    pub samples_sha256: String,
    pub masks_sha256: String,
    pub interpretation_sha256: String,
    pub cells_per_band: u64,
    pub direct: ObjectAttestation,
    pub accelerated: ObjectAttestation,
}

/// Which requests the accelerated object may serve.
#[derive(Debug)]
pub struct Eligibility {
    pub enabled: bool,
    pub access_classes: Vec<String>,
    /// Exact logical band set. Requested output order is never changed.
    pub bands: Vec<usize>,
    pub polygons: [usize; 2],
    pub windows: [usize; 2],
    pub selected_cells: [u64; 2],
    pub envelope_width: [usize; 2],
    pub envelope_height: [usize; 2],
    pub envelope_cells: [u64; 2],
}

pub struct ServingProfile {
    pub schema: String,
    pub profile_id: String,
    pub view_id: String,
    pub numerical_policy: String,
    pub direct: Candidate,
    pub accelerated: Candidate,
    pub attestation: Attestation,
    pub accelerated_when: Eligibility,
}

#[derive(Debug)]
pub struct RequestFacts {
    pub selected_bands: Vec<usize>,
    pub polygon_count: usize,
    pub window_count: usize,
    /// Counts repetitions across polygons/logical windows, once per spatial cell.
    pub selected_cells: u64,
    pub selected_contributions: u64,
    /// Union of nonempty logical windows; not a physical decoder footprint.
    pub window_envelope: Option<[usize; 4]>,
    pub envelope_cells: u64,
}

/// Counts the bytes of a profile as it is written, and stops at a limit.
#[derive(Clone, Copy, Debug, PartialEq, Eq, Structural)]
pub struct SizeCounter {
    pub bytes: usize,
    pub limit: usize,
}

impl SizeCounter {
    /// A counter with the limit of a profile.
    pub fn new() -> (r: Self)
        ensures
            r.bytes == 0,
            r.limit == MAX_PROFILE_BYTES,
    {
        SizeCounter { bytes: 0, limit: MAX_PROFILE_BYTES }
    }

    /// Count `length` further bytes.
    pub fn write(&mut self, length: usize) -> (r: Result<usize, Error>)
        ensures
            final(self).limit == old(self).limit,
            if old(self).bytes + length > usize::MAX {
                r == Err::<usize, Error>(Error::ProfileSize) && *final(self) == *old(self)
            } else {
                &&& final(self).bytes == old(self).bytes + length
                &&& r == (if old(self).bytes + length > old(self).limit {
                    Err::<usize, Error>(Error::ProfileBytes)
                } else {
                    Ok(length)
                })
            },
    {
        self.bytes = match self.bytes.checked_add(length) {
            Some(bytes) => bytes,
            None => return Err(Error::ProfileSize),
        };
        if self.bytes > self.limit {
            return Err(Error::ProfileBytes);
        }
        Ok(length)
    }
}

/// A control character: below the space, or from delete to the end of the second control set.
pub open spec fn is_control(c: char) -> bool {
    (c as u32) < 32 || 127 <= c as u32 <= 159
}

/// A name that can stand in a report: not empty, not longer than `limit` bytes, and without
/// control characters.
pub open spec fn label(text: Seq<char>, limit: int) -> bool {
    &&& 0 < utf8(text).len() <= limit
    &&& forall|i: int| 0 <= i < text.len() ==> !is_control(#[trigger] text[i])
}

pub fn bounded_label(text: &str, limit: usize) -> (r: bool)
    ensures
        r == label(text@, limit as int),
{
    if !(byte_len(text) > 0 && byte_len(text) <= limit) {
        return false;
    }
    let mut clean: bool = true;
    for c in it: text.chars()
        invariant
            it.seq() == text@,
            clean == forall|i: int| 0 <= i < it.index() ==> !is_control(#[trigger] text@[i]),
    {
        assert(c == it.seq()[it.index() as int]);
        let code: u32 = c as u32;
        if code < 32 || (127 <= code && code <= 159) {
            clean = false;
        }
    }
    clean
}

/// The text of a view of a grid and its bands.
pub open spec fn views(view: ExpectedView, grid: Grid, raw: RawRasterMetadata) -> bool {
    &&& view.grid.width == grid.width
    &&& view.grid.height == grid.height
    &&& forall|i: int|
        0 <= i < 6 ==> (#[trigger] view.grid.transform_f64_bits@[i])@ == hex_digits(
            grid.transform_bits@[i] as nat,
            16,
        )
    &&& view.grid.crs@ == grid.crs@
    &&& view.raw_metadata.bands@.len() == raw.bands@.len()
    &&& forall|i: int|
        0 <= i < raw.bands@.len() ==> band_views(#[trigger] view.raw_metadata.bands@[i], raw.bands@[i])
    &&& view.raw_metadata.pixel_convention@ == raw.pixel_convention@
    &&& view.raw_metadata.source_band_count == raw.source_band_count
    &&& view.raw_metadata.source_overview == raw.source_overview
}

pub open spec fn band_views(view: ExpectedBand, band: RawBandMetadata) -> bool {
    &&& view.scalar_type == band.scalar_type
    &&& match (view.nodata_f64_bits, band.nodata_f64_bits) {
        (Some(text), Some(bits)) => text@ == hex_digits(bits as nat, 16),
        (None, None) => true,
        _ => false,
    }
    &&& view.scale_f64_bits@ == hex_digits(band.scale_f64_bits as nat, 16)
    &&& view.offset_f64_bits@ == hex_digits(band.offset_f64_bits as nat, 16)
    &&& match (view.unit, band.unit) {
        (Some(a), Some(b)) => a@ == b@,
        (None, None) => true,
        _ => false,
    }
    &&& view.mask_flags == band.mask_flags
    &&& view.original_band_index == band.original_band_index
    &&& view.description@ == band.description@
}

fn expected_band(band: &RawBandMetadata) -> (r: ExpectedBand)
    ensures
        band_views(r, *band),
{
    let nodata_f64_bits = match band.nodata_f64_bits {
        Some(bits) => Some(bits_text(bits)),
        None => None,
    };
    ExpectedBand {
        scalar_type: band.scalar_type,
        nodata_f64_bits,
        scale_f64_bits: bits_text(band.scale_f64_bits),
        offset_f64_bits: bits_text(band.offset_f64_bits),
        unit: band.unit.clone(),
        mask_flags: band.mask_flags,
        original_band_index: band.original_band_index,
        description: band.description.clone(),
    }
}

/// The view that an opened source shows.
pub fn expected_view(grid: &Grid, raw: &RawRasterMetadata) -> (r: ExpectedView)
    ensures
        views(r, *grid, *raw),
{
    let mut bands: Vec<ExpectedBand> = Vec::new();
    let mut i: usize = 0;
    while i < raw.bands.len()
        invariant
            i <= raw.bands@.len(),
            bands@.len() == i,
            forall|k: int| 0 <= k < i ==> band_views(#[trigger] bands@[k], raw.bands@[k]),
        decreases raw.bands@.len() - i,
    {
        bands.push(expected_band(&raw.bands[i]));
        i += 1;
    }
    let t = &grid.transform_bits;
    let transform_f64_bits: [String; 6] = [
        bits_text(t[0]),
        bits_text(t[1]),
        bits_text(t[2]),
        bits_text(t[3]),
        bits_text(t[4]),
        bits_text(t[5]),
    ];
    ExpectedView {
        grid: ExpectedGrid {
            width: grid.width,
            height: grid.height,
            transform_f64_bits,
            crs: grid.crs.clone(),
        },
        raw_metadata: ExpectedRawMetadata {
            bands,
            pixel_convention: raw.pixel_convention.clone(),
            source_band_count: raw.source_band_count,
            source_overview: raw.source_overview,
        },
    }
}

/// The six coefficients that a declared grid holds, where each is well written.
pub open spec fn declared_bits(grid: ExpectedGrid) -> Seq<u64> {
    Seq::new(6, |i: int| value_of(utf8(grid.transform_f64_bits@[i]@)) as u64)
}

pub open spec fn well_written(grid: ExpectedGrid) -> bool {
    forall|i: int|
        0 <= i < 6 ==> lower_hex_bytes(utf8((#[trigger] grid.transform_f64_bits@[i])@), 16)
}

/// The grid that a view declares.
pub open spec fn declares(expected: ExpectedGrid, grid: Grid) -> bool {
    &&& grid.width == expected.width
    &&& grid.height == expected.height
    &&& grid.transform_bits@ == declared_bits(expected)
    &&& grid.crs@ == expected.crs@
}

impl ExpectedGrid {
    /// Read a declared grid.
    pub fn read(&self) -> (r: Result<Grid, Error>)
        ensures
            if well_written(*self) {
                r matches Ok(grid) && declares(*self, grid)
            } else {
                r is Err && r->Err_0 == Error::ExpectedBits
            },
    {
        let mut transform_bits: [u64; 6] = [0, 0, 0, 0, 0, 0];
        let mut i: usize = 0;
        while i < 6
            invariant
                i <= 6,
                forall|k: int|
                    0 <= k < i ==> lower_hex_bytes(
                        utf8((#[trigger] self.transform_f64_bits@[k])@),
                        16,
                    ),
                forall|k: int|
                    0 <= k < i ==> #[trigger] transform_bits@[k] == value_of(
                        utf8(self.transform_f64_bits@[k]@),
                    ),
            decreases 6 - i,
        {
            match bits_of(self.transform_f64_bits[i].as_str()) {
                Ok(bits) => {
                    transform_bits[i] = bits;
                },
                Err(e) => {
                    assert(!lower_hex_bytes(utf8(self.transform_f64_bits@[i as int]@), 16));
                    return Err(e);
                },
            }
            i += 1;
        }
        assert(transform_bits@ =~= declared_bits(*self));
        Ok(
            Grid {
                width: self.width,
                height: self.height,
                transform_bits,
                crs: self.crs.clone(),
            },
        )
    }
}

/// Why declared metadata is refused as a whole, if it is.
pub open spec fn metadata_refusal(raw: ExpectedRawMetadata) -> Option<Error> {
    if !({
        &&& 1 <= raw.bands@.len() <= 64
        &&& raw.bands@.len() <= raw.source_band_count <= 65536
        &&& raw.source_overview is Some ==> raw.source_overview->0 < 64
        &&& raw.pixel_convention@ == "Area"@ || raw.pixel_convention@ == "Point"@
            || raw.pixel_convention@ == "unspecified"@
    }) {
        Some(Error::ExpectedMetadata)
    } else {
        bands_refusal(raw, 0)
    }
}

/// Why declared band `i` is refused, if it is.
pub open spec fn band_refusal(raw: ExpectedRawMetadata, i: int) -> Option<Error> {
    let band = raw.bands@[i];
    let scale = utf8(band.scale_f64_bits@);
    let offset = utf8(band.offset_f64_bits@);
    if band.scalar_type != RawScalarType::Float32 && band.scalar_type != RawScalarType::Float64 {
        Some(Error::ExpectedScalar)
    } else if !lower_hex_bytes(scale, 16) {
        Some(Error::ExpectedBits)
    } else if !finite_bits(value_of(scale) as u64) {
        Some(Error::ExpectedScaling)
    } else if !lower_hex_bytes(offset, 16) {
        Some(Error::ExpectedBits)
    } else if !finite_bits(value_of(offset) as u64) {
        Some(Error::ExpectedScaling)
    } else if band.nodata_f64_bits is Some && !lower_hex_bytes(
        utf8(band.nodata_f64_bits->0@),
        16,
    ) {
        Some(Error::ExpectedBits)
    } else if !({
        &&& band.unit is Some ==> utf8(band.unit->0@).len() <= 1024
        &&& utf8(band.description@).len() <= 4096
        &&& band.mask_flags < 16
        &&& band.original_band_index < raw.source_band_count
        &&& forall|j: int|
            0 <= j < i ==> (#[trigger] raw.bands@[j]).original_band_index
                != band.original_band_index
    }) {
        Some(Error::ExpectedInterpretation)
    } else {
        None
    }
}

/// The first refusal of the declared bands from `i` on.
pub open spec fn bands_refusal(raw: ExpectedRawMetadata, i: int) -> Option<Error>
    decreases raw.bands@.len() - i,
{
    if i < 0 || i >= raw.bands@.len() {
        None
    } else if band_refusal(raw, i) is Some {
        band_refusal(raw, i)
    } else {
        bands_refusal(raw, i + 1)
    }
}

impl ExpectedRawMetadata {
    fn check_band(&self, i: usize) -> (r: Result<(), Error>)
        requires
            i < self.bands@.len(),
        ensures
            r == (match band_refusal(*self, i as int) {
                Some(e) => Err::<(), Error>(e),
                None => Ok(()),
            }),
    {
        let band = &self.bands[i];
        if band.scalar_type != RawScalarType::Float32 && band.scalar_type
            != RawScalarType::Float64 {
            return Err(Error::ExpectedScalar);
        }
        let scale: u64 = bits_of(band.scale_f64_bits.as_str())?;
        if !is_finite_bits(scale) {
            return Err(Error::ExpectedScaling);
        }
        let offset: u64 = bits_of(band.offset_f64_bits.as_str())?;
        if !is_finite_bits(offset) {
            return Err(Error::ExpectedScaling);
        }
        if let Some(value) = &band.nodata_f64_bits {
            bits_of(value.as_str())?;
        }
        let unit_ok = match &band.unit {
            Some(unit) => byte_len(unit.as_str()) <= 1024,
            None => true,
        };
        if !(unit_ok && byte_len(band.description.as_str()) <= 4096 && band.mask_flags < 16
            && band.original_band_index < self.source_band_count && self.first_place(i)) {
            return Err(Error::ExpectedInterpretation);
        }
        Ok(())
    }

    /// Whether no band before band `i` has its place in the source.
    fn first_place(&self, i: usize) -> (r: bool)
        requires
            i < self.bands@.len(),
        ensures
            r == forall|j: int|
                0 <= j < i ==> (#[trigger] self.bands@[j]).original_band_index
                    != self.bands@[i as int].original_band_index,
    {
        let place: usize = self.bands[i].original_band_index;
        let mut j: usize = 0;
        while j < i
            invariant
                j <= i < self.bands@.len(),
                place == self.bands@[i as int].original_band_index,
                forall|k: int|
                    0 <= k < j ==> (#[trigger] self.bands@[k]).original_band_index != place,
            decreases i - j,
        {
            if self.bands[j].original_band_index == place {
                assert(self.bands@[j as int].original_band_index == place);
                return false;
            }
            j += 1;
        }
        true
    }

    /// Check declared metadata.
    pub fn validate(&self) -> (r: Result<(), Error>)
        ensures
            r == (match metadata_refusal(*self) {
                Some(e) => Err::<(), Error>(e),
                None => Ok(()),
            }),
    {
        let n: usize = self.bands.len();
        let overview_ok = match self.source_overview {
            Some(level) => level < 64,
            None => true,
        };
        let convention = self.pixel_convention.as_str();
        if !(1 <= n && n <= 64 && self.source_band_count >= n && self.source_band_count <= 65536
            && overview_ok && (same(convention, "Area") || same(convention, "Point") || same(
            convention,
            "unspecified",
        ))) {
            return Err(Error::ExpectedMetadata);
        }
        let mut i: usize = 0;
        while i < n
            invariant
                i <= n,
                n == self.bands@.len(),
                metadata_refusal(*self) == bands_refusal(*self, i as int),
            decreases n - i,
        {
            self.check_band(i)?;
            i += 1;
        }
        Ok(())
    }
}

/// Why a declared view is refused, if it is. `affine` is what checking the coordinates of its
/// grid gives.
pub open spec fn view_refusal(view: ExpectedView, affine: Result<(), Error>) -> Option<Error> {
    if !well_written(view.grid) {
        Some(Error::ExpectedBits)
    } else if !(1 <= view.grid.width <= MAX_SIDE && 1 <= view.grid.height <= MAX_SIDE && utf8(
        view.grid.crs@,
    ).len() <= MAX_CRS_BYTES) {
        Some(Error::GridShape)
    } else if affine is Err {
        Some(affine->Err_0)
    } else {
        metadata_refusal(view.raw_metadata)
    }
}

impl ExpectedView {
    /// Check a declared view, and read its grid.
    pub fn validate(&self, affine: Result<(), Error>) -> (r: Result<Grid, Error>)
        ensures
            match view_refusal(*self, affine) {
                Some(e) => r is Err && r->Err_0 == e,
                None => r matches Ok(grid) && declares(self.grid, grid) && grid.valid(),
            },
    {
        let grid = self.grid.read()?;
        grid.validate()?;
        affine?;
        self.raw_metadata.validate()?;
        Ok(grid)
    }
}

/// Sixty-four lower-case hexadecimal digits.
pub open spec fn pinned(text: Seq<char>) -> bool {
    lower_hex_bytes(utf8(text), 64)
}

/// Why a candidate is not the one that the owner pinned, if it is not.
pub open spec fn candidate_refusal(
    candidate: Candidate,
    pin: ObjectAttestation,
    interpretation: Seq<char>,
    affine: Result<(), Error>,
) -> Option<Error> {
    if candidate.spec.refusal() is Some {
        candidate.spec.refusal()
    } else if view_refusal(candidate.expected, affine) is Some {
        view_refusal(candidate.expected, affine)
    } else if candidate.spec.identity is None {
        Some(Error::ProfileIdentity)
    } else if !(pinned(pin.sha256@) && pinned(pin.selector_sha256@) && pinned(
        pin.expected_view_sha256@,
    )) {
        Some(Error::ProfileDigest)
    } else if !(pin.byte_length > 0 && candidate.spec.identity->0.sha256@ == pin.sha256@
        && candidate.spec.identity->0.byte_length == pin.byte_length) {
        Some(Error::ProfilePin)
    } else if text_digest(selector_text(candidate.spec)) != pin.selector_sha256@ {
        Some(Error::ProfileSelector)
    } else if text_digest(view_text(candidate.expected, true)) != pin.expected_view_sha256@ {
        Some(Error::ProfileView)
    } else if text_digest(view_text(candidate.expected, false)) != interpretation {
        Some(Error::ProfileInterpretation)
    } else {
        None
    }
}

/// Hold a candidate against what the owner pinned of it.
pub fn candidate_valid(
    candidate: &Candidate,
    pin: &ObjectAttestation,
    interpretation: &str,
    affine: Result<(), Error>,
) -> (r: Result<Grid, Error>)
    ensures
        match candidate_refusal(*candidate, *pin, interpretation@, affine) {
            Some(e) => r is Err && r->Err_0 == e,
            None => r matches Ok(grid) && declares(candidate.expected.grid, grid) && grid.valid(),
        },
{
    validate_source_spec(&candidate.spec)?;
    let grid = candidate.expected.validate(affine)?;
    let identity = match &candidate.spec.identity {
        Some(identity) => identity,
        None => return Err(Error::ProfileIdentity),
    };
    if !(lower_hex(pin.sha256.as_str(), 64) && lower_hex(pin.selector_sha256.as_str(), 64)
        && lower_hex(pin.expected_view_sha256.as_str(), 64)) {
        return Err(Error::ProfileDigest);
    }
    if !(pin.byte_length > 0 && same(identity.sha256.as_str(), pin.sha256.as_str())
        && identity.byte_length == pin.byte_length) {
        return Err(Error::ProfilePin);
    }
    if !same(selector_sha256(&candidate.spec).as_str(), pin.selector_sha256.as_str()) {
        return Err(Error::ProfileSelector);
    }
    if !same(
        expected_view_sha256(&candidate.expected).as_str(),
        pin.expected_view_sha256.as_str(),
    ) {
        return Err(Error::ProfileView);
    }
    if !same(interpretation_sha256(&candidate.expected).as_str(), interpretation) {
        return Err(Error::ProfileInterpretation);
    }
    Ok(grid)
}

/// Two doubles compare equal: the same bits, or zeros of either sign, and not NaN.
pub open spec fn equal_doubles(a: u64, b: u64) -> bool {
    &&& a % 0x8000_0000_0000_0000 <= 0x7ff0_0000_0000_0000
    &&& b % 0x8000_0000_0000_0000 <= 0x7ff0_0000_0000_0000
    &&& a == b || a % 0x8000_0000_0000_0000 == 0 && b % 0x8000_0000_0000_0000 == 0
}

/// Two grids compare equal.
pub open spec fn equal_grids(a: Grid, b: Grid) -> bool {
    &&& a.width == b.width
    &&& a.height == b.height
    &&& a.crs@ == b.crs@
    &&& forall|i: int|
        0 <= i < 6 ==> equal_doubles(#[trigger] a.transform_bits@[i], b.transform_bits@[i])
}

/// The same, of declared grids.
pub open spec fn equal_declared(a: ExpectedGrid, b: ExpectedGrid) -> bool {
    &&& a.width == b.width
    &&& a.height == b.height
    &&& a.crs@ == b.crs@
    &&& forall|i: int|
        0 <= i < 6 ==> equal_doubles(#[trigger] declared_bits(a)[i], declared_bits(b)[i])
}

pub(crate) fn same_grids(a: &Grid, b: &Grid) -> (r: bool)
    ensures
        r == equal_grids(*a, *b),
{
    if !(a.width == b.width && a.height == b.height && same(a.crs.as_str(), b.crs.as_str())) {
        return false;
    }
    let mut i: usize = 0;
    while i < 6
        invariant
            i <= 6,
            forall|k: int|
                0 <= k < i ==> equal_doubles(#[trigger] a.transform_bits@[k], b.transform_bits@[k]),
        decreases 6 - i,
    {
        let x: u64 = a.transform_bits[i];
        let y: u64 = b.transform_bits[i];
        let equal = x % 0x8000_0000_0000_0000 <= 0x7ff0_0000_0000_0000 && y % 0x8000_0000_0000_0000
            <= 0x7ff0_0000_0000_0000 && (x == y || x % 0x8000_0000_0000_0000 == 0 && y
            % 0x8000_0000_0000_0000 == 0);
        if !equal {
            assert(!equal_doubles(a.transform_bits@[i as int], b.transform_bits@[i as int]));
            return false;
        }
        i += 1;
    }
    true
}

/// One of `texts` is `text`.
pub open spec fn listed(texts: Seq<String>, text: Seq<char>) -> bool {
    exists|i: int| 0 <= i < texts.len() && (#[trigger] texts[i])@ == text
}

pub fn is_listed(texts: &[String], text: &str) -> (r: bool)
    ensures
        r == listed(texts@, text@),
{
    let mut i: usize = 0;
    while i < texts.len()
        invariant
            i <= texts@.len(),
            forall|k: int| 0 <= k < i ==> (#[trigger] texts@[k])@ != text@,
        decreases texts@.len() - i,
    {
        if same(texts[i].as_str(), text) {
            return true;
        }
        i += 1;
    }
    false
}

/// Every access class has a name of its own, and none is the unknown one.
pub open spec fn classes_ok(classes: Seq<String>) -> bool {
    &&& classes.len() <= 8
    &&& forall|i: int| 0 <= i < classes.len() ==> #[trigger] class_ok(classes, i)
}

pub open spec fn class_ok(classes: Seq<String>, i: int) -> bool {
    &&& label(classes[i]@, 64)
    &&& classes[i]@ != "unknown"@
    &&& !listed(classes.take(i), classes[i]@)
}

fn check_classes(classes: &Vec<String>) -> (r: bool)
    ensures
        r == classes_ok(classes@),
{
    if classes.len() > 8 {
        return false;
    }
    let mut i: usize = 0;
    while i < classes.len()
        invariant
            i <= classes@.len() <= 8,
            forall|k: int| 0 <= k < i ==> #[trigger] class_ok(classes@, k),
        decreases classes@.len() - i,
    {
        let class = classes[i].as_str();
        if !(bounded_label(class, 64) && !same(class, "unknown") && !is_listed(
            vstd::slice::slice_subrange(classes.as_slice(), 0, i),
            class,
        )) {
            assert(classes@.subrange(0, i as int) =~= classes@.take(i as int));
            assert(!class_ok(classes@, i as int));
            return false;
        }
        assert(classes@.subrange(0, i as int) =~= classes@.take(i as int));
        i += 1;
    }
    true
}

/// Every eligible band is there, and none stands twice.
pub open spec fn eligible_bands(bands: Seq<usize>, n: int) -> bool {
    &&& 0 < bands.len() <= n
    &&& forall|i: int| 0 <= i < bands.len() ==> (#[trigger] bands[i]) < n
    &&& bands.no_duplicates()
}

fn all_below(values: &[usize], n: usize) -> (r: bool)
    ensures
        r == forall|i: int| 0 <= i < values@.len() ==> (#[trigger] values@[i]) < n,
{
    let mut i: usize = 0;
    while i < values.len()
        invariant
            i <= values@.len(),
            forall|k: int| 0 <= k < i ==> (#[trigger] values@[k]) < n,
        decreases values@.len() - i,
    {
        if values[i] >= n {
            assert(values@[i as int] >= n);
            return false;
        }
        i += 1;
    }
    true
}

/// A range of counts that ends at `cap` or before.
pub open spec fn bounded_range(range: Seq<usize>, cap: int) -> bool {
    range[0] <= range[1] <= cap
}

/// Why an eligibility rule is refused, if it is.
pub open spec fn rule_refusal(
    rule: Eligibility,
    bands: int,
    width: int,
    height: int,
    cells: int,
) -> Option<Error> {
    if !classes_ok(rule.access_classes@) {
        Some(Error::ProfileClasses)
    } else if !eligible_bands(rule.bands@, bands) {
        Some(Error::ProfileBands)
    } else if !(bounded_range(rule.polygons@, 256) && bounded_range(rule.windows@, 4096)
        && bounded_range(rule.envelope_width@, width) && bounded_range(
        rule.envelope_height@,
        height,
    )) {
        Some(Error::ProfileBounds)
    } else if !(rule.selected_cells@[0] <= rule.selected_cells@[1] <= 268435456
        && rule.envelope_cells@[0] <= rule.envelope_cells@[1] <= cells) {
        Some(Error::ProfileWork)
    } else {
        None
    }
}

impl Eligibility {
    /// Check a rule for a view with these bands and sides.
    pub fn validate(&self, bands: usize, width: usize, height: usize, cells: u64) -> (r: Result<
        (),
        Error,
    >)
        ensures
            r == (match rule_refusal(
                *self,
                bands as int,
                width as int,
                height as int,
                cells as int,
            ) {
                Some(e) => Err::<(), Error>(e),
                None => Ok(()),
            }),
    {
        if !check_classes(&self.access_classes) {
            return Err(Error::ProfileClasses);
        }
        if !(self.bands.len() > 0 && self.bands.len() <= bands && all_below(
            self.bands.as_slice(),
            bands,
        ) && distinct(self.bands.as_slice())) {
            return Err(Error::ProfileBands);
        }
        if !(self.polygons[0] <= self.polygons[1] && self.polygons[1] <= 256 && self.windows[0]
            <= self.windows[1] && self.windows[1] <= 4096 && self.envelope_width[0]
            <= self.envelope_width[1] && self.envelope_width[1] <= width && self.envelope_height[0]
            <= self.envelope_height[1] && self.envelope_height[1] <= height) {
            return Err(Error::ProfileBounds);
        }
        if !(self.selected_cells[0] <= self.selected_cells[1] && self.selected_cells[1] <= 268435456
            && self.envelope_cells[0] <= self.envelope_cells[1] && self.envelope_cells[1]
            <= cells) {
            return Err(Error::ProfileWork);
        }
        Ok(())
    }
}

/// The checks that an owner must have made.
pub open spec fn checks_ok(checks: Seq<String>) -> bool {
    &&& checks.len() == 3
    &&& listed(checks, "typed_sample_bits"@)
    &&& listed(checks, "mask_bytes"@)
    &&& listed(checks, "full_interpretation"@)
}

/// Why a profile is refused, if it is. `policy` is the numerical policy in force, and the
/// outcomes are those of checking the coordinates of the two declared grids.
pub open spec fn profile_refusal(
    profile: ServingProfile,
    policy: Seq<char>,
    direct_affine: Result<(), Error>,
    accelerated_affine: Result<(), Error>,
) -> Option<Error> {
    let proof_of = profile.attestation;
    let direct = candidate_refusal(
        profile.direct,
        proof_of.direct,
        proof_of.interpretation_sha256@,
        direct_affine,
    );
    let accelerated = candidate_refusal(
        profile.accelerated,
        proof_of.accelerated,
        proof_of.interpretation_sha256@,
        accelerated_affine,
    );
    let grid = profile.direct.expected.grid;
    if !(profile.schema@ == SCHEMA@ && label(profile.profile_id@, 128)
        && label(profile.view_id@, 128) && profile.numerical_policy@ == policy) {
        Some(Error::ProfileSchema)
    } else if !(proof_of.kind@ == "owner_verified_full_view_v1"@ && label(
        proof_of.verifier@,
        256,
    )) {
        Some(Error::ProfileAttestation)
    } else if !checks_ok(proof_of.checks@) {
        Some(Error::ProfileChecks)
    } else if !(pinned(proof_of.receipt_sha256@) && pinned(proof_of.samples_sha256@) && pinned(
        proof_of.masks_sha256@,
    ) && pinned(proof_of.interpretation_sha256@)) {
        Some(Error::ProfileDigest)
    } else if direct is Some {
        direct
    } else if accelerated is Some {
        accelerated
    } else if !(equal_declared(grid, profile.accelerated.expected.grid) && proof_of.cells_per_band
        == grid.width * grid.height) {
        Some(Error::ProfileViews)
    } else {
        rule_refusal(
            profile.accelerated_when,
            profile.direct.expected.raw_metadata.bands@.len() as int,
            grid.width as int,
            grid.height as int,
            proof_of.cells_per_band as int,
        )
    }
}

impl ServingProfile {
    /// Check a profile, and read the grid of its view.
    pub fn validate(
        &self,
        policy: &str,
        direct_affine: Result<(), Error>,
        accelerated_affine: Result<(), Error>,
    ) -> (r: Result<Grid, Error>)
        ensures
            match profile_refusal(*self, policy@, direct_affine, accelerated_affine) {
                Some(e) => r is Err && r->Err_0 == e,
                None => r matches Ok(grid) && declares(self.direct.expected.grid, grid)
                    && grid.valid(),
            },
    {
        if !(same(self.schema.as_str(), SCHEMA) && bounded_label(
            self.profile_id.as_str(),
            128,
        ) && bounded_label(self.view_id.as_str(), 128) && same(
            self.numerical_policy.as_str(),
            policy,
        )) {
            return Err(Error::ProfileSchema);
        }
        let attested = &self.attestation;
        if !(same(attested.kind.as_str(), "owner_verified_full_view_v1") && bounded_label(
            attested.verifier.as_str(),
            256,
        )) {
            return Err(Error::ProfileAttestation);
        }
        let checks = attested.checks.as_slice();
        if !(checks.len() == 3 && is_listed(checks, "typed_sample_bits") && is_listed(
            checks,
            "mask_bytes",
        ) && is_listed(checks, "full_interpretation")) {
            return Err(Error::ProfileChecks);
        }
        if !(lower_hex(attested.receipt_sha256.as_str(), 64) && lower_hex(
            attested.samples_sha256.as_str(),
            64,
        ) && lower_hex(attested.masks_sha256.as_str(), 64) && lower_hex(
            attested.interpretation_sha256.as_str(),
            64,
        )) {
            return Err(Error::ProfileDigest);
        }
        let interpretation = attested.interpretation_sha256.as_str();
        let direct = candidate_valid(
            &self.direct,
            &attested.direct,
            interpretation,
            direct_affine,
        )?;
        let accelerated = candidate_valid(
            &self.accelerated,
            &attested.accelerated,
            interpretation,
            accelerated_affine,
        )?;
        proof {
            lemma_equal_grids(
                self.direct.expected.grid,
                self.accelerated.expected.grid,
                direct,
                accelerated,
            );
            let w = direct.width as int;
            let h = direct.height as int;
            assert(0 <= w * h <= MAX_SIDE * MAX_SIDE) by (nonlinear_arith)
                requires
                    0 <= w <= MAX_SIDE,
                    0 <= h <= MAX_SIDE,
            ;
        }
        let cells: u64 = direct.width as u64 * direct.height as u64;
        if !(same_grids(&direct, &accelerated) && attested.cells_per_band == cells) {
            return Err(Error::ProfileViews);
        }
        self.accelerated_when.validate(
            self.direct.expected.raw_metadata.bands.len(),
            direct.width,
            direct.height,
            attested.cells_per_band,
        )?;
        Ok(direct)
    }
}

proof fn lemma_equal_grids(a: ExpectedGrid, b: ExpectedGrid, x: Grid, y: Grid)
    requires
        declares(a, x),
        declares(b, y),
    ensures
        equal_declared(a, b) == equal_grids(x, y),
{
    if equal_declared(a, b) {
        assert forall|i: int| 0 <= i < 6 implies equal_doubles(
            #[trigger] x.transform_bits@[i],
            y.transform_bits@[i],
        ) by {
            assert(equal_doubles(declared_bits(a)[i], declared_bits(b)[i]));
        }
    }
    if equal_grids(x, y) {
        assert forall|i: int| 0 <= i < 6 implies equal_doubles(
            #[trigger] declared_bits(a)[i],
            declared_bits(b)[i],
        ) by {
            assert(equal_doubles(x.transform_bits@[i], y.transform_bits@[i]));
        }
    }
}

} // verus!
