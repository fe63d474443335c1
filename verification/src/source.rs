//! Native-grid reader contract. Mathematical kernels do not depend on a file
//! format, compression, overviews, tiling, or a prepared value representation.
use std::collections::BTreeMap;

use vstd::prelude::*;
use vstd::string::StringSliceAdditionalSpecFns;

use crate::error::Error;
use crate::model::Grid;
use crate::skv_header::{digest_text, is_digest_text};
use crate::text::{byte_len, contains, occurs, same, stands_at, starts_with, utf8};

verus! {

/// Original GDAL scalar values admitted by the numerical reader. Raw access
/// preserves their little-endian bits; it never normalizes invalid samples.
#[derive(Clone, Copy, Debug, PartialEq, Eq, Structural)]
pub enum RawScalarType {
    Byte,
    Int8,
    UInt16,
    Int16,
    UInt32,
    Int32,
    Float32,
    Float64,
}

impl RawScalarType {
    pub open spec fn width(self) -> int {
        match self {
            RawScalarType::Byte | RawScalarType::Int8 => 1,
            RawScalarType::UInt16 | RawScalarType::Int16 => 2,
            RawScalarType::UInt32 | RawScalarType::Int32 | RawScalarType::Float32 => 4,
            RawScalarType::Float64 => 8,
        }
    }

    /// The name under which GDAL knows the type.
    pub open spec fn gdal_name(self) -> Seq<char> {
        match self {
            RawScalarType::Byte => "Byte"@,
            RawScalarType::Int8 => "Int8"@,
            RawScalarType::UInt16 => "UInt16"@,
            RawScalarType::Int16 => "Int16"@,
            RawScalarType::UInt32 => "UInt32"@,
            RawScalarType::Int32 => "Int32"@,
            RawScalarType::Float32 => "Float32"@,
            RawScalarType::Float64 => "Float64"@,
        }
    }

    /// Bytes of one sample.
    pub fn byte_width(self) -> (r: usize)
        ensures
            r == self.width(),
    {
        match self {
            RawScalarType::Byte | RawScalarType::Int8 => 1,
            RawScalarType::UInt16 | RawScalarType::Int16 => 2,
            RawScalarType::UInt32 | RawScalarType::Int32 | RawScalarType::Float32 => 4,
            RawScalarType::Float64 => 8,
        }
    }

    /// The type that GDAL calls `name`.
    pub fn from_gdal_name(name: &str) -> (r: Result<Self, Error>)
        ensures
            match r {
                Ok(kind) => name@ == kind.gdal_name(),
                Err(e) => e == Error::UnsupportedScalar && forall|kind: RawScalarType|
                    name@ != #[trigger] kind.gdal_name(),
            },
    {
        if same(name, "Byte") {
            Ok(RawScalarType::Byte)
        } else if same(name, "Int8") {
            Ok(RawScalarType::Int8)
        } else if same(name, "UInt16") {
            Ok(RawScalarType::UInt16)
        } else if same(name, "Int16") {
            Ok(RawScalarType::Int16)
        } else if same(name, "UInt32") {
            Ok(RawScalarType::UInt32)
        } else if same(name, "Int32") {
            Ok(RawScalarType::Int32)
        } else if same(name, "Float32") {
            Ok(RawScalarType::Float32)
        } else if same(name, "Float64") {
            Ok(RawScalarType::Float64)
        } else {
            Err(Error::UnsupportedScalar)
        }
    }
}

/// One name belongs to one type.
pub proof fn gdal_names_are_distinct(a: RawScalarType, b: RawScalarType)
    requires
        a.gdal_name() == b.gdal_name(),
    ensures
        a == b,
{
    reveal_strlit("Byte");
    reveal_strlit("Int8");
    reveal_strlit("UInt16");
    reveal_strlit("Int16");
    reveal_strlit("UInt32");
    reveal_strlit("Int32");
    reveal_strlit("Float32");
    reveal_strlit("Float64");
    assert("Byte"@.len() == 4 && "Byte"@[0] == 'B');
    assert("Int8"@.len() == 4 && "Int8"@[0] == 'I');
    assert("UInt16"@.len() == 6 && "UInt16"@[4] == '1');
    assert("UInt32"@.len() == 6 && "UInt32"@[4] == '3');
    assert("Int16"@.len() == 5 && "Int16"@[3] == '1');
    assert("Int32"@.len() == 5 && "Int32"@[3] == '3');
    assert("Float32"@.len() == 7 && "Float32"@[5] == '3');
    assert("Float64"@.len() == 7 && "Float64"@[5] == '6');
    assert(a.gdal_name().len() == b.gdal_name().len());
}

#[derive(Debug)]
pub struct RawBandMetadata {
    pub scalar_type: RawScalarType,
    /// Exact bits returned by GDAL's f64 NoData metadata API. TIFF tag lexical
    /// spelling and any NaN payload already canonicalized by GDAL are outside
    /// this contract; typed sample payloads are preserved independently.
    pub nodata_f64_bits: Option<u64>,
    pub scale_f64_bits: u64,
    pub offset_f64_bits: u64,
    pub unit: Option<String>,
    /// GDAL GMF_ALL_VALID/PER_DATASET/ALPHA/NODATA bits. The returned mask is
    /// always preserved independently, including nonbinary alpha mask bytes.
    pub mask_flags: u32,
    pub original_band_index: usize,
    pub description: String,
}

#[derive(Debug)]
pub struct RawRasterMetadata {
    pub bands: Vec<RawBandMetadata>,
    pub pixel_convention: String,
    pub source_band_count: usize,
    /// Original explicitly selected TIFF overview (zero-based GDAL index).
    /// The exposed grid is this existing view; no query-time resampling occurs.
    pub source_overview: Option<usize>,
}

#[derive(Debug)]
pub struct RawBandWindow {
    pub samples_le: Vec<u8>,
    pub mask: Vec<u8>,
}

#[derive(Debug)]
pub struct RawWindow {
    pub width: usize,
    pub height: usize,
    pub bands: Vec<RawBandWindow>,
}

/// Decoded samples of one band, each with whether it is valid. The number type is the
/// reader's: arithmetic on samples is its own.
#[derive(Debug)]
pub struct Band<V> {
    pub values: Vec<V>,
    pub valid: Vec<bool>,
    pub unit: Option<String>,
}

/// The values of a window of a source, on the grid of the window.
#[derive(Debug)]
pub struct Raster<V> {
    pub grid: Grid,
    pub bands: Vec<Band<V>>,
    pub source_id: String,
}

/// How a source is stored.
#[derive(Clone, Copy, Debug, PartialEq, Eq, Structural)]
pub enum SourceFormat {
    Geotiff,
    Netcdf,
    Skv,
}

impl Default for SourceFormat {
    fn default() -> (r: Self)
        ensures
            r == SourceFormat::Geotiff,
    {
        SourceFormat::Geotiff
    }
}

/// How a declared content identity is established.
#[derive(Clone, Copy, Debug, PartialEq, Eq, Structural)]
pub enum VerificationPolicy {
    Verify,
    TrustedManifest,
}

/// The declared content of a source.
#[derive(Clone, PartialEq)]
pub struct ContentIdentity {
    pub sha256: String,
    pub byte_length: u64,
    pub policy: VerificationPolicy,
    /// Object-scoped expected strong ETag for a trusted remote manifest.
    pub etag: Option<String>,
}

/// Limits and credentials of a remote source.
#[derive(Clone, PartialEq)]
pub struct HttpOptions {
    pub headers: BTreeMap<String, String>,
    /// HTTP header -> environment variable name. Resolved only when opening.
    pub header_env: BTreeMap<String, String>,
    pub max_requests: u64,
    pub max_download_bytes: u64,
    pub max_range_bytes: u64,
    pub timeout_seconds: u64,
    /// Explicit opt-in for controlled local HTTP fixtures; HTTPS is ordinary.
    pub allow_http: bool,
    pub cache_bytes: usize,
    /// Enable eligible boundary preparation of served summaries; false is an eager ablation.
    pub boundary_read_ahead: bool,
    /// Leading bytes of an original TIFF that are fetched before it is opened.
    pub metadata_prefetch_bytes: usize,
    /// Page to which small reads of an original TIFF are widened; zero keeps them exact.
    pub small_read_page_bytes: usize,
}

impl Default for HttpOptions {
    fn default() -> (r: Self)
        ensures
            r.headers@ == Map::<String, String>::empty(),
            r.header_env@ == Map::<String, String>::empty(),
            r.max_requests == 4096,
            r.max_download_bytes == 128 * 1024 * 1024,
            r.max_range_bytes == 4 * 1024 * 1024,
            r.timeout_seconds == 30,
            !r.allow_http,
            r.cache_bytes == 4 * 1024 * 1024,
            r.boundary_read_ahead,
            r.metadata_prefetch_bytes == 0,
            r.small_read_page_bytes == 0,
    {
        HttpOptions {
            headers: BTreeMap::new(),
            header_env: BTreeMap::new(),
            max_requests: 4096,
            max_download_bytes: 128 * 1024 * 1024,
            max_range_bytes: 4 * 1024 * 1024,
            timeout_seconds: 30,
            allow_http: false,
            cache_bytes: 4 * 1024 * 1024,
            boundary_read_ahead: true,
            metadata_prefetch_bytes: 0,
            small_read_page_bytes: 0,
        }
    }
}

impl HttpOptions {
    /// Within the budgets that a transport supports.
    pub open spec fn bounded(&self) -> bool {
        &&& 0 < self.max_requests <= 65536
        &&& 0 < self.max_download_bytes <= 768 * 1024 * 1024
        &&& 0 < self.max_range_bytes <= 4 * 1024 * 1024
        &&& 0 < self.timeout_seconds <= 30
        &&& self.cache_bytes <= 8 * 1024 * 1024
    }
}

/// Explicit trusted input. Applications resolve their own source allowlist.
/// Intentionally not Debug: locations and headers may contain secrets.
#[derive(Clone, PartialEq)]
pub struct SourceSpec {
    pub location: String,
    pub format: SourceFormat,
    pub variable: Option<String>,
    /// Explicit existing TIFF overview, zero-based (0 is the first reduced
    /// image). Omission always means native resolution. Never selected from
    /// query size, and never synthesized by resampling.
    pub overview: Option<usize>,
    /// Explicit interpretation for a source lacking CRS. Existing conflicting
    /// CRS metadata is rejected; this never reprojects coordinates or pixels.
    pub crs: Option<String>,
    /// Explicit whole-axis longitude representation translation for NetCDF.
    /// Only -360,0,+360 degrees; no rotation/reordering or antimeridian repair.
    pub longitude_shift: i32,
    /// Zero-based native band mapping, in exposed order.
    pub bands: Option<Vec<usize>>,
    /// Disable optional embedded summaries while retaining the same source data
    /// and interpretation. This is an execution ablation, not a new dataset.
    pub use_summaries: bool,
    pub identity: Option<ContentIdentity>,
    pub http: HttpOptions,
}

/// A byte that may not stand in a location: NUL, line feed or carriage return.
pub open spec fn breaking(b: u8) -> bool {
    b == 0 || b == 10 || b == 13
}

/// A location that is fetched rather than opened as a file.
pub open spec fn remote_location(location: Seq<char>) -> bool {
    stands_at(utf8(location), utf8("https://"@), 0) || stands_at(
        utf8(location),
        utf8("http://"@),
        0,
    )
}

/// A location that is opened as a file, and not by another scheme.
pub open spec fn file_location(location: Seq<char>) -> bool {
    !occurs(utf8(location), utf8("://"@)) && !stands_at(utf8(location), utf8("/vsi"@), 0)
}

impl SourceSpec {
    /// Why a source is not admitted, if it is not.
    pub open spec fn refusal(&self) -> Option<Error> {
        let bytes = utf8(self.location@);
        if !(0 < bytes.len() <= 16384) {
            Some(Error::SourceLocationBudget)
        } else if exists|i: int| 0 <= i < bytes.len() && breaking(#[trigger] bytes[i]) {
            Some(Error::SourceLocation)
        } else if self.overview is Some && !(self.overview->0 < 64 && self.format
            == SourceFormat::Geotiff) {
            Some(Error::SourceOverview)
        } else if !(remote_location(self.location@) || file_location(self.location@)) {
            Some(Error::SourceTransport)
        } else if !((self.longitude_shift == -360 || self.longitude_shift == 0
            || self.longitude_shift == 360) && (self.longitude_shift == 0 || self.format
            == SourceFormat::Netcdf)) {
            Some(Error::SourceLongitude)
        } else if !self.http.bounded() {
            Some(Error::SourceLimits)
        } else if self.bands is Some && !(0 < self.bands->0@.len() <= 64
            && self.bands->0@.no_duplicates()) {
            Some(Error::SourceBands)
        } else if self.identity is Some && !(digest_text(utf8(self.identity->0.sha256@))
            && self.identity->0.byte_length > 0) {
            Some(Error::SourceIdentity)
        } else if self.crs is Some && !(0 < utf8(self.crs->0@).len() <= 4096) {
            Some(Error::SourceCrs)
        } else {
            None
        }
    }
}

/// Whether no value occurs twice.
pub fn distinct(values: &[usize]) -> (r: bool)
    ensures
        r == values@.no_duplicates(),
{
    let mut i: usize = 0;
    while i < values.len()
        invariant
            i <= values@.len(),
            forall|a: int, b: int| 0 <= a < b < i ==> values@[a] != values@[b],
        decreases values@.len() - i,
    {
        let mut j: usize = 0;
        while j < i
            invariant
                j <= i < values@.len(),
                forall|a: int| 0 <= a < j ==> values@[a] != values@[i as int],
            decreases i - j,
        {
            if values[j] == values[i] {
                assert(values@[j as int] == values@[i as int]);
                return false;
            }
            j += 1;
        }
        i += 1;
    }
    assert forall|a: int, b: int| 0 <= a < values@.len() && 0 <= b < values@.len() && a != b implies
        values@[a] != values@[b] by {
        if a < b {
            assert(values@[a] != values@[b]);
        } else {
            assert(values@[b] != values@[a]);
        }
    }
    true
}

/// Whether a location is fetched.
pub fn is_remote(location: &str) -> (r: bool)
    ensures
        r == remote_location(location@),
{
    starts_with(location, "https://") || starts_with(location, "http://")
}

/// Shared source admission, including callers that open a serving object directly for full
/// verification instead of registering an ordinary source handle first.
pub fn validate_source_spec(spec: &SourceSpec) -> (r: Result<(), Error>)
    ensures
        r == (match spec.refusal() {
            Some(e) => Err::<(), Error>(e),
            None => Ok(()),
        }),
{
    let bytes = spec.location.as_str().as_bytes();
    if bytes.len() == 0 || bytes.len() > 16384 {
        return Err(Error::SourceLocationBudget);
    }
    let mut i: usize = 0;
    while i < bytes.len()
        invariant
            i <= bytes@.len(),
            bytes@ == utf8(spec.location@),
            0 < bytes@.len() <= 16384,
            forall|k: int| 0 <= k < i ==> !breaking(#[trigger] bytes@[k]),
        decreases bytes@.len() - i,
    {
        let b: u8 = bytes[i];
        if b == 0 || b == 10 || b == 13 {
            assert(breaking(bytes@[i as int]));
            return Err(Error::SourceLocation);
        }
        i += 1;
    }
    if let Some(level) = spec.overview {
        if !(level < 64 && spec.format == SourceFormat::Geotiff) {
            return Err(Error::SourceOverview);
        }
    }
    let location = spec.location.as_str();
    if !(is_remote(location) || (!contains(location, "://") && !starts_with(location, "/vsi"))) {
        return Err(Error::SourceTransport);
    }
    let shift: i32 = spec.longitude_shift;
    if !((shift == -360 || shift == 0 || shift == 360) && (shift == 0 || spec.format
        == SourceFormat::Netcdf)) {
        return Err(Error::SourceLongitude);
    }
    let http = &spec.http;
    if !(http.max_requests > 0 && http.max_requests <= 65536 && http.max_download_bytes > 0
        && http.max_download_bytes <= 768 * 1024 * 1024 && http.max_range_bytes > 0
        && http.max_range_bytes <= 4 * 1024 * 1024 && http.timeout_seconds > 0
        && http.timeout_seconds <= 30 && http.cache_bytes <= 8 * 1024 * 1024) {
        return Err(Error::SourceLimits);
    }
    if let Some(ids) = &spec.bands {
        if !(ids.len() > 0 && ids.len() <= 64 && distinct(ids.as_slice())) {
            return Err(Error::SourceBands);
        }
    }
    if let Some(identity) = &spec.identity {
        if !(is_digest_text(identity.sha256.as_str()) && identity.byte_length > 0) {
            return Err(Error::SourceIdentity);
        }
    }
    if let Some(crs) = &spec.crs {
        if !(byte_len(crs.as_str()) > 0 && byte_len(crs.as_str()) <= 4096) {
            return Err(Error::SourceCrs);
        }
    }
    Ok(())
}

} // verus!
