//! Opening an ordinary source: which reader a location goes to, what must hold of its content
//! before it is opened, how its bands are interpreted and under which identity it is known.
//! Location and credentials never become part of that identity.
use vstd::prelude::*;
use vstd::string::StringExecFns;

use crate::cancel::{check_cancel, ended, Cancel};
use crate::canonical::{canonical, canonical_sha256, distinct_names, Document};
use crate::codec::{hex_of, sha256, sha256_of, to_hex};
use crate::digits::{decimal_of, push_decimal};
use crate::error::Error;
use crate::layout::min_of;
use crate::profile_text::{digest_of, json_string, quoted, text_digest};
use crate::serving_profile::equal_doubles;
use crate::skv_directory::{magic, magic_bytes};
use crate::skv_source::{digest_matches, lower_byte, lowered, mapping_of};
use crate::source::{
    is_remote, remote_location, validate_source_spec, ContentIdentity, HttpOptions,
    RawBandMetadata, RawScalarType, SourceFormat, SourceSpec, VerificationPolicy,
};
use crate::text::{
    byte_len, contains, lemma_utf8_injective, occurs, same, same_bytes, same_option, utf8,
};

verus! {

/// The most bands of a source that is opened at once.
pub const MAX_BANDS: usize = 64;

/// The path of a URL, as the URL parser gives it, where the text is a URL at all.
pub uninterp spec fn path_of_url(text: Seq<char>) -> Option<Seq<char>>;

/// `reqwest::Url::parse` and `reqwest::Url::path`: the path of the URL, percent-encoded, which
/// is a function of the text alone; nothing, where the text does not parse.
#[verifier::external_body]
fn url_path(text: &str) -> (r: Option<String>)
    ensures
        match r {
            Some(path) => path_of_url(text@) == Some(path@),
            None => path_of_url(text@) is None,
        },
{
    reqwest::Url::parse(text).ok().map(|url| url.path().to_owned())
}

/// A path without the separators and the `/.` parts at its end.
pub open spec fn trimmed(path: Seq<u8>) -> Seq<u8>
    decreases path.len(),
{
    let n = path.len();
    if n > 0 && path[n - 1] == 47 {
        trimmed(path.drop_last())
    } else if n > 1 && path[n - 1] == 46 && path[n - 2] == 47 {
        trimmed(path.drop_last())
    } else {
        path
    }
}

/// The place of the last byte `b`.
pub open spec fn last_place(path: Seq<u8>, b: u8) -> Option<int>
    decreases path.len(),
{
    if path.len() == 0 {
        None
    } else if path.last() == b {
        Some(path.len() - 1)
    } else {
        last_place(path.drop_last(), b)
    }
}

/// The last part of a path: what is behind its last separator.
pub open spec fn name_of(path: Seq<u8>) -> Seq<u8> {
    let path = trimmed(path);
    match last_place(path, 47) {
        Some(at) => path.skip(at + 1),
        None => path,
    }
}

/// The extension of a path: what is behind the last dot of its name, unless the name has no
/// dot but one at its start, or is the parent directory.
pub open spec fn extension_of(path: Seq<u8>) -> Option<Seq<u8>> {
    let name = name_of(path);
    if name == seq![46u8, 46u8] {
        None
    } else {
        match last_place(name, 46) {
            Some(at) => if at > 0 {
                Some(name.skip(at + 1))
            } else {
                None
            },
            None => None,
        }
    }
}

/// A text reads as `word`, which is in lower case, but for the case of its letters.
pub open spec fn reads_as(text: Seq<u8>, word: Seq<u8>) -> bool {
    lowered(word, text)
}

/// A path has this extension, in letters of either case.
pub open spec fn has_extension(path: Seq<u8>, word: Seq<u8>) -> bool {
    extension_of(path) is Some && reads_as(extension_of(path)->0, word)
}

proof fn lemma_last_place(path: Seq<u8>, b: u8, at: int)
    requires
        0 <= at < path.len(),
        path[at] == b,
        forall|k: int| at < k < path.len() ==> path[k] != b,
    ensures
        last_place(path, b) == Some(at),
    decreases path.len(),
{
    if at < path.len() - 1 {
        lemma_last_place(path.drop_last(), b, at);
    }
}

proof fn lemma_no_place(path: Seq<u8>, b: u8)
    requires
        forall|k: int| 0 <= k < path.len() ==> path[k] != b,
    ensures
        last_place(path, b) is None,
    decreases path.len(),
{
    if path.len() > 0 {
        lemma_no_place(path.drop_last(), b);
    }
}

fn find_last(path: &[u8], from: usize, end: usize, b: u8) -> (r: Option<usize>)
    requires
        from <= end <= path@.len(),
    ensures
        match r {
            Some(at) => from <= at < end && last_place(path@.subrange(from as int, end as int), b)
                == Some(at - from),
            None => last_place(path@.subrange(from as int, end as int), b) is None,
        },
{
    let ghost part = path@.subrange(from as int, end as int);
    let mut at: usize = end;
    while at > from
        invariant
            from <= at <= end <= path@.len(),
            part == path@.subrange(from as int, end as int),
            forall|k: int| at <= k < end ==> path@[k] != b,
        decreases at,
    {
        at -= 1;
        if path[at] == b {
            proof {
                assert(part[at - from] == b);
                lemma_last_place(part, b, at - from);
            }
            return Some(at);
        }
    }
    proof {
        lemma_no_place(part, b);
    }
    None
}

/// Where the extension of a path begins and ends, if it has one.
fn extension(path: &[u8]) -> (r: Option<(usize, usize)>)
    ensures
        match r {
            Some((from, end)) => from <= end <= path@.len() && extension_of(path@) == Some(
                path@.subrange(from as int, end as int),
            ),
            None => extension_of(path@) is None,
        },
{
    let mut end: usize = path.len();
    assert(path@.take(end as int) =~= path@);
    while end > 0 && (path[end - 1] == 47 || end > 1 && path[end - 1] == 46 && path[end - 2] == 47)
        invariant
            end <= path@.len(),
            trimmed(path@) == trimmed(path@.take(end as int)),
        decreases end,
    {
        assert(path@.take(end as int).drop_last() =~= path@.take(end - 1));
        end -= 1;
    }
    assert(trimmed(path@) == path@.take(end as int));
    assert(path@.subrange(0, end as int) =~= path@.take(end as int));
    let from: usize = match find_last(path, 0, end, 47) {
        Some(at) => at + 1,
        None => 0,
    };
    let ghost name = name_of(path@);
    assert(name =~= path@.subrange(from as int, end as int));
    if end - from == 2 && path[from] == 46 && path[from + 1] == 46 {
        assert(name =~= seq![46u8, 46u8]);
        return None;
    }
    proof {
        if name == seq![46u8, 46u8] {
            assert(name[0] == 46 && name[1] == 46);
        }
    }
    match find_last(path, from, end, 46) {
        Some(at) => {
            if at > from {
                assert(name.skip(at - from + 1) =~= path@.subrange(at + 1, end as int));
                Some((at + 1, end))
            } else {
                None
            }
        },
        None => None,
    }
}

fn extension_reads(path: &[u8], word: &[u8]) -> (r: bool)
    ensures
        r == has_extension(path@, word@),
{
    let (from, end): (usize, usize) = match extension(path) {
        Some(place) => place,
        None => return false,
    };
    let ghost text = path@.subrange(from as int, end as int);
    if end - from != word.len() {
        return false;
    }
    let mut i: usize = 0;
    while i < word.len()
        invariant
            from + word@.len() == end,
            end <= path@.len(),
            i <= word@.len(),
            text == path@.subrange(from as int, end as int),
            extension_of(path@) == Some(text),
            forall|k: int| 0 <= k < i ==> #[trigger] word@[k] == lower_byte(text[k]),
        decreases word@.len() - i,
    {
        let c: u8 = path[from + i];
        assert(text[i as int] == c);
        let low: u8 = if 65 <= c && c <= 90 {
            c + 32
        } else {
            c
        };
        if word[i] != low {
            assert(word@[i as int] != lower_byte(text[i as int]));
            return false;
        }
        i += 1;
    }
    true
}

/// What a location hints at. A hint only routes: a reader checks what it finds.
#[derive(Clone, Copy, Debug, PartialEq, Eq, Structural)]
pub enum Hint {
    Skv,
    Tiff,
    Unknown,
}

/// The hint that a path gives.
pub open spec fn path_hint(path: Seq<u8>) -> Hint {
    if has_extension(path, seq![115u8, 107, 118]) {
        Hint::Skv
    } else if has_extension(path, seq![116u8, 105, 102]) || has_extension(
        path,
        seq![116u8, 105, 102, 102],
    ) {
        Hint::Tiff
    } else {
        Hint::Unknown
    }
}

/// The hint that a location gives: that of the path of a URL, or of the location itself.
pub open spec fn location_hint(location: Seq<char>) -> Hint {
    if !remote_location(location) {
        path_hint(utf8(location))
    } else {
        match path_of_url(location) {
            Some(path) => path_hint(utf8(path)),
            None => Hint::Unknown,
        }
    }
}

/// The hint of a path, from the endings `.skv`, `.tif` and `.tiff` in letters of either case.
pub fn hint_of_path(path: &str) -> (r: Hint)
    ensures
        r == path_hint(utf8(path@)),
{
    let bytes = path.as_bytes();
    let skv: Vec<u8> = vec![115, 107, 118];
    let tif: Vec<u8> = vec![116, 105, 102];
    let tiff: Vec<u8> = vec![116, 105, 102, 102];
    assert(skv@ =~= seq![115u8, 107, 118]);
    assert(tif@ =~= seq![116u8, 105, 102]);
    assert(tiff@ =~= seq![116u8, 105, 102, 102]);
    if extension_reads(bytes, skv.as_slice()) {
        Hint::Skv
    } else if extension_reads(bytes, tif.as_slice()) || extension_reads(bytes, tiff.as_slice()) {
        Hint::Tiff
    } else {
        Hint::Unknown
    }
}

/// The hint of a location.
pub fn hint_of(location: &str) -> (r: Hint)
    ensures
        r == location_hint(location@),
{
    if !is_remote(location) {
        return hint_of_path(location);
    }
    match url_path(location) {
        Some(path) => hint_of_path(path.as_str()),
        None => Hint::Unknown,
    }
}

/// How a source is opened.
#[derive(Clone, Copy, Debug, PartialEq, Eq, Structural)]
pub enum Route {
    /// By the reader of serving objects.
    Skv,
    /// Through ranges of a remote object, its first bytes being probed or not.
    Remote { probe: bool },
    /// As a file, its first bytes being probed or not.
    Local { probe: bool },
}

/// Options that only reads of an original TIFF have.
pub open spec fn tiff_options(http: HttpOptions) -> bool {
    http.metadata_prefetch_bytes != 0 || http.small_read_page_bytes != 0
}

/// Where a specification with this hint goes.
pub open spec fn route_of(spec: SourceSpec, hint: Hint, max_bands: int) -> Result<Route, Error> {
    if spec.refusal() is Some {
        Err(spec.refusal()->0)
    } else if spec.bands is Some && spec.bands->0@.len() > max_bands {
        Err(Error::SourceBands)
    } else if spec.format == SourceFormat::Skv || (spec.format == SourceFormat::Geotiff && hint
        == Hint::Skv) {
        if tiff_options(spec.http) {
            Err(Error::PrefetchFormat)
        } else {
            Ok(Route::Skv)
        }
    } else if remote_location(spec.location@) {
        if spec.format != SourceFormat::Geotiff {
            Err(Error::RemoteNetcdf)
        } else {
            Ok(Route::Remote { probe: hint != Hint::Tiff })
        }
    } else {
        Ok(Route::Local { probe: spec.format == SourceFormat::Geotiff && hint != Hint::Tiff })
    }
}

/// Where a specification with a given hint goes.
pub fn route_with(spec: &SourceSpec, hint: Hint, max_bands: usize) -> (r: Result<Route, Error>)
    ensures
        r == route_of(*spec, hint, max_bands as int),
{
    match validate_source_spec(spec) {
        Ok(()) => {},
        Err(e) => return Err(e),
    }
    if let Some(bands) = &spec.bands {
        if bands.len() > max_bands {
            return Err(Error::SourceBands);
        }
    }
    if spec.format == SourceFormat::Skv || (spec.format == SourceFormat::Geotiff && hint
        == Hint::Skv) {
        return if spec.http.metadata_prefetch_bytes != 0 || spec.http.small_read_page_bytes != 0 {
            Err(Error::PrefetchFormat)
        } else {
            Ok(Route::Skv)
        };
    }
    if is_remote(spec.location.as_str()) {
        if spec.format != SourceFormat::Geotiff {
            return Err(Error::RemoteNetcdf);
        }
        return Ok(Route::Remote { probe: hint != Hint::Tiff });
    }
    Ok(Route::Local { probe: spec.format == SourceFormat::Geotiff && hint != Hint::Tiff })
}

/// Where an ordinary source goes, before anything is opened.
pub fn open_source_with_band_limit<C: Cancel>(
    spec: &SourceSpec,
    cancel: &C,
    max_bands: usize,
) -> (r: Result<Route, Error>)
    ensures
        ended(
            cancel,
            r,
            r == route_of(*spec, location_hint(spec.location@), max_bands as int),
        ),
{
    match check_cancel(cancel) {
        Ok(()) => {},
        Err(e) => return Err(e),
    }
    let hint: Hint = hint_of(spec.location.as_str());
    route_with(spec, hint, max_bands)
}

/// Where an ordinary source goes.
pub fn open_source<C: Cancel>(spec: &SourceSpec, cancel: &C) -> (r: Result<Route, Error>)
    ensures
        ended(
            cancel,
            r,
            r == route_of(*spec, location_hint(spec.location@), MAX_BANDS as int),
        ),
{
    open_source_with_band_limit(spec, cancel, MAX_BANDS)
}

/// Where a source that is to be compiled goes: only a TIFF can be.
pub fn open_source_for_compile<C: Cancel>(spec: &SourceSpec, cancel: &C) -> (r: Result<
    Route,
    Error,
>)
    ensures
        ended(
            cancel,
            r,
            r == (if spec.format != SourceFormat::Geotiff {
                Err::<Route, Error>(Error::CompileFormat)
            } else {
                route_of(*spec, location_hint(spec.location@), MAX_BANDS as int)
            }),
        ),
{
    if spec.format != SourceFormat::Geotiff {
        return Err(Error::CompileFormat);
    }
    open_source_with_band_limit(spec, cancel, MAX_BANDS)
}

/// How many first bytes are probed.
pub fn probe_length(probe: bool, length: u64) -> (r: u64)
    ensures
        r == (if probe {
            min_of(length as int, 8)
        } else {
            0
        }),
{
    if !probe {
        0
    } else if length < 8 {
        length
    } else {
        8
    }
}

/// Whether probed bytes are those of a serving object, which the reader of such objects then
/// takes over. A remote one may not carry options of an original TIFF.
pub fn probed_skv(prefix: &[u8], remote: bool, http: &HttpOptions) -> (r: Result<bool, Error>)
    ensures
        r == (if prefix@ != magic() {
            Ok::<bool, Error>(false)
        } else if remote && tiff_options(*http) {
            Err(Error::PrefetchFormat)
        } else {
            Ok(true)
        }),
{
    if !same_bytes(prefix, magic_bytes().as_slice()) {
        return Ok(false);
    }
    if remote && (http.metadata_prefetch_bytes != 0 || http.small_read_page_bytes != 0) {
        return Err(Error::PrefetchFormat);
    }
    Ok(true)
}

/// What becomes of a declared remote identity: whether the whole content is scanned, or why
/// the object is refused.
pub open spec fn remote_identity(
    identity: ContentIdentity,
    length: int,
    etag: Seq<char>,
    max_download: int,
) -> Result<bool, Error> {
    if identity.byte_length != length {
        Err(Error::RemoteLength)
    } else if identity.etag is Some && identity.etag->0@ != etag {
        Err(Error::RemoteValidator)
    } else if identity.policy == VerificationPolicy::TrustedManifest {
        if identity.etag is None {
            Err(Error::RemoteManifest)
        } else {
            Ok(false)
        }
    } else if length > max_download {
        Err(Error::VerificationBudget)
    } else {
        Ok(true)
    }
}

/// Hold a remote object against its declared identity before its content is read.
pub fn check_remote(identity: &ContentIdentity, length: u64, etag: &str, max_download: u64) -> (r:
    Result<bool, Error>)
    ensures
        r == remote_identity(*identity, length as int, etag@, max_download as int),
{
    if identity.byte_length != length {
        return Err(Error::RemoteLength);
    }
    if let Some(expected) = &identity.etag {
        if !same(expected.as_str(), etag) {
            return Err(Error::RemoteValidator);
        }
    }
    if identity.policy == VerificationPolicy::TrustedManifest {
        if identity.etag.is_none() {
            return Err(Error::RemoteManifest);
        }
        return Ok(false);
    }
    if length > max_download {
        return Err(Error::VerificationBudget);
    }
    Ok(true)
}

/// Hold a local file against its declared identity: whether its whole content is scanned, or
/// why it is refused. `sidecar` tells whether metadata or masks lie beside the file.
pub fn check_local(identity: &ContentIdentity, length: u64, sidecar: bool) -> (r: Result<
    bool,
    Error,
>)
    ensures
        r == (if sidecar {
            Err::<bool, Error>(Error::SourceSidecar)
        } else if identity.byte_length != length {
            Err(Error::LocalLength)
        } else {
            Ok(identity.policy == VerificationPolicy::Verify)
        }),
{
    if sidecar {
        return Err(Error::SourceSidecar);
    }
    if identity.byte_length != length {
        return Err(Error::LocalLength);
    }
    Ok(identity.policy == VerificationPolicy::Verify)
}

/// Hold the digest of scanned content against the declared one, and a local file against its
/// fingerprint before the scan.
pub fn check_scan(computed: &str, identity: &ContentIdentity, remote: bool, unchanged: bool) -> (r:
    Result<(), Error>)
    ensures
        r == (if !lowered(utf8(computed@), utf8(identity.sha256@)) {
            Err::<(), Error>(
                if remote {
                    Error::RemoteDigest
                } else {
                    Error::LocalDigest
                },
            )
        } else if !remote && !unchanged {
            Err(Error::SourceChanged)
        } else {
            Ok(())
        }),
{
    if !digest_matches(computed, identity.sha256.as_str()) {
        return Err(
            if remote {
                Error::RemoteDigest
            } else {
                Error::LocalDigest
            },
        );
    }
    if !remote && !unchanged {
        return Err(Error::SourceChanged);
    }
    Ok(())
}

/// Hold content that is at hand as a whole against its declared digest.
pub fn check_content(content: &[u8], identity: &ContentIdentity, remote: bool) -> (r: Result<
    (),
    Error,
>)
    ensures
        r == (if lowered(utf8(hex_of(sha256_of(content@))), utf8(identity.sha256@)) {
            Ok::<(), Error>(())
        } else if remote {
            Err(Error::RemoteDigest)
        } else {
            Err(Error::LocalDigest)
        }),
{
    let computed: String = to_hex(sha256(content).as_slice());
    check_scan(computed.as_str(), identity, remote, true)
}

/// How many leading bytes of a remote TIFF are fetched before it is opened.
pub fn prefix_seed(http: &HttpOptions, length: u64) -> (r: Result<u64, Error>)
    requires
        http.cache_bytes <= 8 * 1024 * 1024,
        http.max_range_bytes <= 4 * 1024 * 1024,
    ensures
        r == ({
            let seed = min_of(length as int, http.metadata_prefetch_bytes as int);
            if http.metadata_prefetch_bytes == 0 {
                Ok::<u64, Error>(0)
            } else if !(0 < seed <= http.max_range_bytes && seed + 128 <= http.cache_bytes) {
                Err(Error::PrefetchCapacity)
            } else {
                Ok(seed as u64)
            }
        }),
{
    if http.metadata_prefetch_bytes == 0 {
        return Ok(0);
    }
    let most: u64 = http.metadata_prefetch_bytes as u64;
    let seed: u64 = if length < most {
        length
    } else {
        most
    };
    if seed == 0 || seed > http.max_range_bytes || seed + 128 > http.cache_bytes as u64 {
        return Err(Error::PrefetchCapacity);
    }
    Ok(seed)
}

/// A byte that may stand in the name of a NetCDF variable.
pub open spec fn variable_byte(b: u8) -> bool {
    48 <= b <= 57 || 65 <= b <= 90 || 97 <= b <= 122 || b == 95 || b == 45
}

/// The name of a variable is one that can be asked for.
pub open spec fn variable_name(name: Seq<u8>) -> bool {
    0 < name.len() <= 256 && forall|i: int|
        0 <= i < name.len() ==> variable_byte(#[trigger] name[i])
}

fn is_variable_name(name: &str) -> (r: bool)
    ensures
        r == variable_name(utf8(name@)),
{
    let bytes = name.as_bytes();
    if bytes.len() == 0 || bytes.len() > 256 {
        return false;
    }
    let mut i: usize = 0;
    while i < bytes.len()
        invariant
            i <= bytes@.len(),
            bytes@ == utf8(name@),
            forall|k: int| 0 <= k < i ==> variable_byte(#[trigger] bytes@[k]),
        decreases bytes@.len() - i,
    {
        let b: u8 = bytes[i];
        if !(48 <= b && b <= 57 || 65 <= b && b <= 90 || 97 <= b && b <= 122 || b == 95 || b
            == 45) {
            assert(!variable_byte(bytes@[i as int]));
            return false;
        }
        i += 1;
    }
    true
}

/// What is opened: a name, and one option that selects an overview.
pub struct DatasetName {
    pub name: String,
    pub option: Option<String>,
}

/// Why a source has no name that can be opened, if it has none.
pub open spec fn name_refusal(spec: SourceSpec, path: Seq<char>) -> Option<Error> {
    if spec.format == SourceFormat::Geotiff {
        if spec.variable is Some {
            Some(Error::TiffVariable)
        } else {
            None
        }
    } else if spec.variable is None {
        Some(Error::NetcdfVariable)
    } else if !variable_name(utf8(spec.variable->0@)) {
        Some(Error::NetcdfSelector)
    } else if occurs(utf8(path), utf8("\""@)) {
        Some(Error::NetcdfQuoting)
    } else {
        None
    }
}

/// The name under which a source at this path is opened.
pub fn dataset_name(spec: &SourceSpec, path: &str) -> (r: Result<DatasetName, Error>)
    ensures
        match name_refusal(*spec, path@) {
            Some(e) => r is Err && r->Err_0 == e,
            None => r is Ok && (if spec.format == SourceFormat::Geotiff {
                &&& r->Ok_0.name@ == path@
                &&& match spec.overview {
                    Some(level) => r->Ok_0.option is Some && r->Ok_0.option->0@
                        == "OVERVIEW_LEVEL="@ + decimal_of(level as nat) + "only"@,
                    None => r->Ok_0.option is None,
                }
            } else {
                &&& r->Ok_0.name@ == "NETCDF:\""@ + path@ + "\":"@ + spec.variable->0@
                &&& r->Ok_0.option is None
            }),
        },
{
    if spec.format == SourceFormat::Geotiff {
        if spec.variable.is_some() {
            return Err(Error::TiffVariable);
        }
        let option: Option<String> = match spec.overview {
            Some(level) => {
                let mut text: String = "OVERVIEW_LEVEL=".to_owned();
                push_decimal(&mut text, level as u64);
                text.append("only");
                Some(text)
            },
            None => None,
        };
        return Ok(DatasetName { name: path.to_owned(), option });
    }
    match &spec.variable {
        None => Err(Error::NetcdfVariable),
        Some(variable) => {
            if !is_variable_name(variable.as_str()) {
                return Err(Error::NetcdfSelector);
            }
            if contains(path, "\"") {
                return Err(Error::NetcdfQuoting);
            }
            let mut name: String = "NETCDF:\"".to_owned();
            name.append(path);
            name.append("\":");
            name.append(variable.as_str());
            Ok(DatasetName { name, option: None })
        },
    }
}

/// The native bands that a source exposes, in its order.
pub fn exposed_bands(spec: &SourceSpec, native: usize, max_bands: usize) -> (r: Result<
    Vec<usize>,
    Error,
>)
    ensures
        if 0 < mapping_of(*spec, native as int).len() <= max_bands {
            r is Ok && r->Ok_0@ == mapping_of(*spec, native as int)
        } else {
            r is Err && r->Err_0 == Error::NativeBands
        },
{
    let mut mapping: Vec<usize> = Vec::new();
    match &spec.bands {
        Some(ids) => {
            if ids.len() == 0 || ids.len() > max_bands {
                return Err(Error::NativeBands);
            }
            let mut i: usize = 0;
            while i < ids.len()
                invariant
                    i <= ids@.len(),
                    mapping@ == ids@.take(i as int),
                decreases ids@.len() - i,
            {
                mapping.push(ids[i]);
                assert(mapping@ =~= ids@.take(i + 1));
                i += 1;
            }
            assert(ids@.take(ids@.len() as int) =~= ids@);
        },
        None => {
            if native == 0 || native > max_bands {
                return Err(Error::NativeBands);
            }
            let mut i: usize = 0;
            while i < native
                invariant
                    i <= native,
                    mapping@.len() == i,
                    forall|k: int| 0 <= k < i ==> mapping@[k] == k,
                decreases native - i,
            {
                mapping.push(i);
                i += 1;
            }
            assert(mapping@ =~= mapping_of(*spec, native as int));
        },
    }
    Ok(mapping)
}

/// How the values of one band are read.
#[derive(Debug)]
pub struct BandReading {
    pub data_type: String,
    pub nodata_bits: Option<u64>,
    pub scale_bits: u64,
    pub offset_bits: u64,
    pub unit: Option<String>,
}

/// What the band of an overview declares for itself.
#[derive(Clone, Copy, Debug, PartialEq, Eq)]
pub struct DeclaredScaling {
    pub scale_bits: Option<u64>,
    pub offset_bits: Option<u64>,
}

pub open spec fn agrees(declared: Option<u64>, inherited: u64) -> bool {
    declared is Some ==> equal_doubles(declared->0, inherited)
}

/// Why a band of an overview is not read as that of its parent, if it is not: what it declares
/// is never replaced.
pub open spec fn inherit_refusal(
    band: BandReading,
    declared: DeclaredScaling,
    parent: BandReading,
) -> Option<Error> {
    if band.data_type@ != parent.data_type@ {
        Some(Error::OverviewScalar)
    } else if !(agrees(declared.scale_bits, parent.scale_bits) && agrees(
        declared.offset_bits,
        parent.offset_bits,
    )) {
        Some(Error::OverviewScaling)
    } else if band.nodata_bits is Some && band.nodata_bits != parent.nodata_bits {
        Some(Error::OverviewNodata)
    } else if band.unit is Some && !(parent.unit is Some && band.unit->0@ == parent.unit->0@) {
        Some(Error::OverviewUnit)
    } else {
        None
    }
}

fn doubles_equal(a: u64, b: u64) -> (r: bool)
    ensures
        r == equal_doubles(a, b),
{
    let low_a: u64 = a % 0x8000_0000_0000_0000;
    let low_b: u64 = b % 0x8000_0000_0000_0000;
    low_a <= 0x7ff0_0000_0000_0000 && low_b <= 0x7ff0_0000_0000_0000 && (a == b || low_a == 0
        && low_b == 0)
}

fn agreeing(declared: Option<u64>, inherited: u64) -> (r: bool)
    ensures
        r == agrees(declared, inherited),
{
    match declared {
        Some(bits) => doubles_equal(bits, inherited),
        None => true,
    }
}

/// The reading of a band of an overview: that of the same band of its parent, which an
/// overview does not repeat.
pub fn inherit(band: &BandReading, declared: DeclaredScaling, parent: &BandReading) -> (r: Result<
    BandReading,
    Error,
>)
    ensures
        match inherit_refusal(*band, declared, *parent) {
            Some(e) => r is Err && r->Err_0 == e,
            None => {
                &&& r is Ok
                &&& r->Ok_0.data_type@ == band.data_type@
                &&& r->Ok_0.nodata_bits == parent.nodata_bits
                &&& r->Ok_0.scale_bits == parent.scale_bits
                &&& r->Ok_0.offset_bits == parent.offset_bits
                &&& r->Ok_0.unit is Some == parent.unit is Some
                &&& parent.unit is Some ==> r->Ok_0.unit->0@ == parent.unit->0@
            },
        },
{
    if !same(band.data_type.as_str(), parent.data_type.as_str()) {
        return Err(Error::OverviewScalar);
    }
    if !(agreeing(declared.scale_bits, parent.scale_bits) && agreeing(
        declared.offset_bits,
        parent.offset_bits,
    )) {
        return Err(Error::OverviewScaling);
    }
    match (band.nodata_bits, parent.nodata_bits) {
        (Some(a), Some(b)) => {
            if a != b {
                return Err(Error::OverviewNodata);
            }
        },
        (Some(_), None) => return Err(Error::OverviewNodata),
        _ => {},
    }
    if band.unit.is_some() && !same_option(&band.unit, &parent.unit) {
        return Err(Error::OverviewUnit);
    }
    Ok(
        BandReading {
            data_type: band.data_type.as_str().to_owned(),
            nodata_bits: parent.nodata_bits,
            scale_bits: parent.scale_bits,
            offset_bits: parent.offset_bits,
            unit: match &parent.unit {
                Some(unit) => Some(unit.as_str().to_owned()),
                None => None,
            },
        },
    )
}

/// The masks of a band as flags, the lowest bit first: all valid, per dataset, alpha, NoData.
pub fn mask_flags(all_valid: bool, per_dataset: bool, alpha: bool, nodata: bool) -> (r: u32)
    ensures
        r == (if all_valid {
            1int
        } else {
            0
        }) + (if per_dataset {
            2int
        } else {
            0
        }) + (if alpha {
            4int
        } else {
            0
        }) + (if nodata {
            8int
        } else {
            0
        }),
{
    let mut flags: u32 = 0;
    if all_valid {
        flags += 1;
    }
    if per_dataset {
        flags += 2;
    }
    if alpha {
        flags += 4;
    }
    if nodata {
        flags += 8;
    }
    flags
}

/// The metadata of one exposed band. A description of an overview that is empty is that of its
/// parent.
pub fn raw_band(
    reading: &BandReading,
    index: usize,
    flags: u32,
    description: &str,
    parent: Option<&str>,
) -> (r: Result<RawBandMetadata, Error>)
    ensures
        r is Ok <==> utf8(description@).len() <= 1024 && exists|kind: RawScalarType|
            reading.data_type@ == kind.gdal_name(),
        utf8(description@).len() > 1024 ==> r is Err && r->Err_0 == Error::DescriptionBudget,
        r is Err && utf8(description@).len() <= 1024 ==> r->Err_0 == Error::UnsupportedScalar,
        r is Ok ==> {
            let band = r->Ok_0;
            &&& reading.data_type@ == band.scalar_type.gdal_name()
            &&& band.nodata_f64_bits == reading.nodata_bits
            &&& band.scale_f64_bits == reading.scale_bits
            &&& band.offset_f64_bits == reading.offset_bits
            &&& band.unit is Some == reading.unit is Some
            &&& reading.unit is Some ==> band.unit->0@ == reading.unit->0@
            &&& band.mask_flags == flags
            &&& band.original_band_index == index
            &&& band.description@ == (if utf8(description@).len() == 0 && parent is Some {
                parent->0@
            } else {
                description@
            })
        },
{
    if byte_len(description) > 1024 {
        return Err(Error::DescriptionBudget);
    }
    let scalar_type: RawScalarType = match RawScalarType::from_gdal_name(
        reading.data_type.as_str(),
    ) {
        Ok(kind) => kind,
        Err(e) => return Err(e),
    };
    let description: String = if byte_len(description) == 0 {
        match parent {
            Some(text) => text.to_owned(),
            None => description.to_owned(),
        }
    } else {
        description.to_owned()
    };
    Ok(
        RawBandMetadata {
            scalar_type,
            nodata_f64_bits: reading.nodata_bits,
            scale_f64_bits: reading.scale_bits,
            offset_f64_bits: reading.offset_bits,
            unit: match &reading.unit {
                Some(unit) => Some(unit.as_str().to_owned()),
                None => None,
            },
            mask_flags: flags,
            original_band_index: index,
            description,
        },
    )
}

/// What an opened source has still to meet: blocks of its masks, the text of its registration,
/// and for NetCDF a plain grid and degrees where longitudes are shifted.
pub fn check_opened(
    spec: &SourceSpec,
    geolocated: bool,
    crs: &str,
    mask_blocks: &[(usize, usize)],
    registration: &str,
) -> (r: Result<(), Error>)
    ensures
        r == (if spec.format == SourceFormat::Netcdf && geolocated {
            Err::<(), Error>(Error::Curvilinear)
        } else if spec.format == SourceFormat::Netcdf && spec.longitude_shift != 0 && crs@
            != "EPSG:4326"@ {
            Err(Error::LongitudeCrs)
        } else if exists|i: int|
            0 <= i < mask_blocks@.len() && ((#[trigger] mask_blocks@[i]).0 == 0
                || mask_blocks@[i].1 == 0) {
            Err(Error::MaskBlock)
        } else if utf8(registration@).len() > 1024 {
            Err(Error::RegistrationBudget)
        } else {
            Ok(())
        }),
{
    if spec.format == SourceFormat::Netcdf {
        if geolocated {
            return Err(Error::Curvilinear);
        }
        if spec.longitude_shift != 0 && !same(crs, "EPSG:4326") {
            return Err(Error::LongitudeCrs);
        }
    }
    let mut i: usize = 0;
    while i < mask_blocks.len()
        invariant
            i <= mask_blocks@.len(),
            !(spec.format == SourceFormat::Netcdf && geolocated),
            !(spec.format == SourceFormat::Netcdf && spec.longitude_shift != 0 && crs@
                != "EPSG:4326"@),
            forall|k: int|
                0 <= k < i ==> (#[trigger] mask_blocks@[k]).0 > 0 && mask_blocks@[k].1 > 0,
        decreases mask_blocks@.len() - i,
    {
        if mask_blocks[i].0 == 0 || mask_blocks[i].1 == 0 {
            assert(mask_blocks@[i as int].0 == 0 || mask_blocks@[i as int].1 == 0);
            return Err(Error::MaskBlock);
        }
        i += 1;
    }
    if byte_len(registration) > 1024 {
        return Err(Error::RegistrationBudget);
    }
    Ok(())
}

/// The text whose digest identifies declared content under one interpretation.
pub open spec fn descriptor_text(
    identity: ContentIdentity,
    sha256: Seq<char>,
    interpretation: Seq<char>,
) -> Seq<char> {
    "{\"byte_length\":"@ + decimal_of(identity.byte_length as nat) + ",\"content_sha256\":"@
        + quoted(sha256) + ",\"interpretation_sha256\":"@ + quoted(interpretation)
        + ",\"version\":1}"@
}

/// A declared digest in lower case.
pub fn lower_digest(identity: &ContentIdentity) -> (r: String)
    requires
        crate::skv_header::digest_text(utf8(identity.sha256@)),
    ensures
        lowered(utf8(r@), utf8(identity.sha256@)),
{
    let bytes = identity.sha256.as_str().as_bytes();
    let mut text: String = String::new();
    let mut i: usize = 0;
    proof {
        lemma_ascii(text@);
    }
    while i < bytes.len()
        invariant
            i <= bytes@.len(),
            bytes@ == utf8(identity.sha256@),
            crate::skv_header::digest_text(bytes@),
            text@.len() == i,
            forall|k: int|
                0 <= k < i ==> '\0' <= (#[trigger] text@[k]) <= '\u{7f}' && text@[k] as u8 == lower_byte(
                    bytes@[k],
                ),
        decreases bytes@.len() - i,
    {
        let b: u8 = bytes[i];
        assert(crate::skv_header::hex_byte(bytes@[i as int]));
        let value: u8 = if b <= 57 {
            b - 48
        } else if b <= 70 {
            b - 55
        } else {
            b - 87
        };
        crate::digits::push_digit(&mut text, value);
        i += 1;
    }
    proof {
        lemma_ascii(text@);
    }
    text
}

/// The bytes of a text of plain characters are its characters.
proof fn lemma_ascii(text: Seq<char>)
    requires
        forall|k: int| 0 <= k < text.len() ==> '\0' <= (#[trigger] text[k]) <= '\u{7f}',
    ensures
        utf8(text) == Seq::new(text.len(), |k: int| text[k] as u8),
{
    vstd::utf8::is_ascii_chars_encode_utf8(text);
}

/// The identity under which a source is known: of its declared content and its interpretation,
/// or else of where it was found and its interpretation.
pub fn source_id(identity: &Option<ContentIdentity>, base_id: &str, interpretation: &str) -> (r:
    String)
    requires
        identity is Some ==> crate::skv_header::digest_text(utf8(identity->0.sha256@)),
    ensures
        match identity {
            Some(identity) => exists|sha256: Seq<char>| #[trigger]
                lowered(utf8(sha256), utf8(identity.sha256@)) && r@
                    == "content-interpretation-sha256:"@ + text_digest(
                    descriptor_text(*identity, sha256, interpretation@),
                ),
            None => r@ == "source-interpretation-sha256:"@ + text_digest(
                "["@ + quoted(base_id@) + ","@ + quoted(interpretation@) + "]"@,
            ),
        },
{
    match identity {
        Some(identity) => {
            let sha256: String = lower_digest(identity);
            let mut text: String = "{\"byte_length\":".to_owned();
            push_decimal(&mut text, identity.byte_length);
            text.append(",\"content_sha256\":");
            text.append(json_string(sha256.as_str()).as_str());
            text.append(",\"interpretation_sha256\":");
            text.append(json_string(interpretation).as_str());
            text.append(",\"version\":1}");
            let mut r: String = "content-interpretation-sha256:".to_owned();
            r.append(digest_of(text.as_str()).as_str());
            r
        },
        None => {
            let mut text: String = "[".to_owned();
            text.append(json_string(base_id).as_str());
            text.append(",");
            text.append(json_string(interpretation).as_str());
            text.append("]");
            let mut r: String = "source-interpretation-sha256:".to_owned();
            r.append(digest_of(text.as_str()).as_str());
            r
        },
    }
}

/// The identity under which a source is known, from the document of its interpretation.
pub fn interpreted_source_id(
    identity: &Option<ContentIdentity>,
    base_id: &str,
    interpretation: &Document,
) -> (r: String)
    requires
        distinct_names(*interpretation),
        identity is Some ==> crate::skv_header::digest_text(utf8(identity->0.sha256@)),
    ensures
        ({
            let digest = text_digest(canonical(*interpretation));
            match identity {
                Some(identity) => exists|sha256: Seq<char>| #[trigger]
                    lowered(utf8(sha256), utf8(identity.sha256@)) && r@
                        == "content-interpretation-sha256:"@ + text_digest(
                        descriptor_text(*identity, sha256, digest),
                    ),
                None => r@ == "source-interpretation-sha256:"@ + text_digest(
                    "["@ + quoted(base_id@) + ","@ + quoted(digest) + "]"@,
                ),
            }
        }),
{
    let digest: String = canonical_sha256(interpretation);
    source_id(identity, base_id, digest.as_str())
}

/// Declared content has one identity, however the letters of its digest are written: where the
/// content lies does not enter it.
pub proof fn an_identity_is_of_content(
    a: ContentIdentity,
    b: ContentIdentity,
    sha256_a: Seq<char>,
    sha256_b: Seq<char>,
    interpretation: Seq<char>,
)
    requires
        a.byte_length == b.byte_length,
        utf8(a.sha256@).len() == utf8(b.sha256@).len(),
        forall|i: int|
            0 <= i < utf8(a.sha256@).len() ==> lower_byte(#[trigger] utf8(a.sha256@)[i])
                == lower_byte(utf8(b.sha256@)[i]),
        lowered(utf8(sha256_a), utf8(a.sha256@)),
        lowered(utf8(sha256_b), utf8(b.sha256@)),
    ensures
        descriptor_text(a, sha256_a, interpretation) == descriptor_text(
            b,
            sha256_b,
            interpretation,
        ),
{
    assert forall|i: int| 0 <= i < utf8(sha256_a).len() implies utf8(sha256_a)[i] == utf8(
        sha256_b,
    )[i] by {
        assert(utf8(sha256_a)[i] == lower_byte(utf8(a.sha256@)[i]));
        assert(utf8(sha256_b)[i] == lower_byte(utf8(b.sha256@)[i]));
    }
    assert(utf8(sha256_a) =~= utf8(sha256_b));
    lemma_utf8_injective(sha256_a, sha256_b);
}

} // verus!
