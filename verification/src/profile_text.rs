//! The canonical text of a source view and of a source selector: compact JSON with sorted
//! keys. Its digest pins what an attestation speaks of.
use vstd::prelude::*;
use vstd::string::{StringExecFns, StringSliceAdditionalSpecFns};

use crate::codec::{hex_of, sha256, sha256_of, to_hex};
use crate::digits::{decimal_of, hex_digit, push_decimal};
use crate::source::{RawScalarType, SourceFormat, SourceSpec};
use crate::text::utf8;

verus! {

/// A grid, with its affine coefficients as sixteen hexadecimal digits each.
#[derive(Debug)]
pub struct ExpectedGrid {
    pub width: usize,
    pub height: usize,
    pub transform_f64_bits: [String; 6],
    pub crs: String,
}

/// How the samples of a band are read.
#[derive(Debug)]
pub struct ExpectedBand {
    pub scalar_type: RawScalarType,
    pub nodata_f64_bits: Option<String>,
    pub scale_f64_bits: String,
    pub offset_f64_bits: String,
    pub unit: Option<String>,
    pub mask_flags: u32,
    pub original_band_index: usize,
    pub description: String,
}

#[derive(Debug)]
pub struct ExpectedRawMetadata {
    pub bands: Vec<ExpectedBand>,
    pub pixel_convention: String,
    pub source_band_count: usize,
    pub source_overview: Option<usize>,
}

/// A complete declared view of a source.
#[derive(Debug)]
pub struct ExpectedView {
    pub grid: ExpectedGrid,
    pub raw_metadata: ExpectedRawMetadata,
}

/// How a character stands in a JSON string.
pub open spec fn escaped_char(c: char) -> Seq<char> {
    if c == '"' || c == '\\' {
        seq!['\\', c]
    } else if c == '\u{8}' {
        seq!['\\', 'b']
    } else if c == '\t' {
        seq!['\\', 't']
    } else if c == '\n' {
        seq!['\\', 'n']
    } else if c == '\u{c}' {
        seq!['\\', 'f']
    } else if c == '\r' {
        seq!['\\', 'r']
    } else if 32 > c as nat {
        seq!['\\', 'u', '0', '0', hex_digit((c as nat / 16) as u8), hex_digit((c as nat % 16) as u8)]
    } else {
        seq![c]
    }
}

/// How characters stand in a JSON string.
pub open spec fn escaped(text: Seq<char>) -> Seq<char>
    decreases text.len(),
{
    if text.len() == 0 {
        Seq::empty()
    } else {
        escaped(text.drop_last()) + escaped_char(text.last())
    }
}

/// A text as a JSON string.
pub open spec fn quoted(text: Seq<char>) -> Seq<char> {
    seq!['"'] + escaped(text) + seq!['"']
}

/// `serde_json::to_string` of a text: the text between quotation marks, where a quotation
/// mark, a backslash and each control character below the space is escaped.
#[verifier::external_body]
pub(crate) fn json_string(text: &str) -> (r: String)
    ensures
        r@ == quoted(text@),
{
    serde_json::to_string(text).expect("a text is always serializable")
}

/// The name of a sample type in the text.
pub open spec fn scalar_word(kind: RawScalarType) -> Seq<char> {
    match kind {
        RawScalarType::Byte => "byte"@,
        RawScalarType::Int8 => "int8"@,
        RawScalarType::UInt16 => "u_int16"@,
        RawScalarType::Int16 => "int16"@,
        RawScalarType::UInt32 => "u_int32"@,
        RawScalarType::Int32 => "int32"@,
        RawScalarType::Float32 => "float32"@,
        RawScalarType::Float64 => "float64"@,
    }
}

fn scalar_name(kind: RawScalarType) -> (r: &'static str)
    ensures
        r@ == scalar_word(kind),
{
    match kind {
        RawScalarType::Byte => "byte",
        RawScalarType::Int8 => "int8",
        RawScalarType::UInt16 => "u_int16",
        RawScalarType::Int16 => "int16",
        RawScalarType::UInt32 => "u_int32",
        RawScalarType::Int32 => "int32",
        RawScalarType::Float32 => "float32",
        RawScalarType::Float64 => "float64",
    }
}

/// The name of a format in the text.
pub open spec fn format_word(format: SourceFormat) -> Seq<char> {
    match format {
        SourceFormat::Geotiff => "geotiff"@,
        SourceFormat::Netcdf => "netcdf"@,
        SourceFormat::Skv => "skv"@,
    }
}

fn format_name(format: SourceFormat) -> (r: &'static str)
    ensures
        r@ == format_word(format),
{
    match format {
        SourceFormat::Geotiff => "geotiff",
        SourceFormat::Netcdf => "netcdf",
        SourceFormat::Skv => "skv",
    }
}

/// `text` and a JSON string, or `null`.
pub open spec fn with_optional(text: Seq<char>, value: Option<String>) -> Seq<char> {
    match value {
        Some(value) => text + quoted(value@),
        None => text + "null"@,
    }
}

/// `text` and a JSON number, or `null`.
pub open spec fn with_number(text: Seq<char>, value: Option<usize>) -> Seq<char> {
    match value {
        Some(value) => text + decimal_of(value as nat),
        None => text + "null"@,
    }
}

fn push_optional(text: &mut String, value: &Option<String>)
    ensures
        final(text)@ == with_optional(old(text)@, *value),
{
    match value {
        Some(value) => text.append(json_string(value.as_str()).as_str()),
        None => text.append("null"),
    }
}

fn push_number(text: &mut String, value: Option<usize>)
    ensures
        final(text)@ == with_number(old(text)@, value),
{
    match value {
        Some(value) => push_decimal(text, value as u64),
        None => text.append("null"),
    }
}

/// `text` and a list of JSON strings.
pub open spec fn with_texts(text: Seq<char>, values: Seq<String>) -> Seq<char>
    decreases values.len(),
{
    if values.len() == 0 {
        text
    } else if values.len() == 1 {
        text + quoted(values[0]@)
    } else {
        with_texts(text, values.drop_last()) + ","@ + quoted(values.last()@)
    }
}

/// `text` and a list of JSON numbers.
pub open spec fn with_numbers(text: Seq<char>, values: Seq<usize>) -> Seq<char>
    decreases values.len(),
{
    if values.len() == 0 {
        text
    } else if values.len() == 1 {
        text + decimal_of(values[0] as nat)
    } else {
        with_numbers(text, values.drop_last()) + ","@ + decimal_of(values.last() as nat)
    }
}

fn push_texts(text: &mut String, values: &[String])
    ensures
        final(text)@ == with_texts(old(text)@, values@),
{
    let ghost start = text@;
    let mut i: usize = 0;
    while i < values.len()
        invariant
            i <= values@.len(),
            text@ == with_texts(start, values@.take(i as int)),
        decreases values@.len() - i,
    {
        if i > 0 {
            text.append(",");
        }
        text.append(json_string(values[i].as_str()).as_str());
        proof {
            let next = values@.take(i + 1);
            assert(next.drop_last() =~= values@.take(i as int));
            assert(next.last() == values@[i as int]);
        }
        i += 1;
    }
    assert(values@.take(values@.len() as int) =~= values@);
}

pub(crate) fn push_numbers(text: &mut String, values: &[usize])
    ensures
        final(text)@ == with_numbers(old(text)@, values@),
{
    let ghost start = text@;
    let mut i: usize = 0;
    while i < values.len()
        invariant
            i <= values@.len(),
            text@ == with_numbers(start, values@.take(i as int)),
        decreases values@.len() - i,
    {
        if i > 0 {
            text.append(",");
        }
        push_decimal(text, values[i] as u64);
        proof {
            let next = values@.take(i + 1);
            assert(next.drop_last() =~= values@.take(i as int));
            assert(next.last() == values@[i as int]);
        }
        i += 1;
    }
    assert(values@.take(values@.len() as int) =~= values@);
}

/// `text` and a band. Where only the interpretation counts, its place in the source is left
/// out.
pub open spec fn with_band(text: Seq<char>, band: ExpectedBand, placed: bool) -> Seq<char> {
    let a = text + "{\"description\":"@ + quoted(band.description@) + ",\"mask_flags\":"@
        + decimal_of(band.mask_flags as nat) + ",\"nodata_f64_bits\":"@;
    let b = with_optional(a, band.nodata_f64_bits) + ",\"offset_f64_bits\":"@ + quoted(
        band.offset_f64_bits@,
    );
    let c = if placed {
        b + ",\"original_band_index\":"@ + decimal_of(band.original_band_index as nat)
    } else {
        b
    };
    let d = c + ",\"scalar_type\":\""@ + scalar_word(band.scalar_type) + "\",\"scale_f64_bits\":"@
        + quoted(band.scale_f64_bits@) + ",\"unit\":"@;
    with_optional(d, band.unit) + "}"@
}

fn push_band(text: &mut String, band: &ExpectedBand, placed: bool)
    ensures
        final(text)@ == with_band(old(text)@, *band, placed),
{
    text.append("{\"description\":");
    text.append(json_string(band.description.as_str()).as_str());
    text.append(",\"mask_flags\":");
    push_decimal(text, band.mask_flags as u64);
    text.append(",\"nodata_f64_bits\":");
    push_optional(text, &band.nodata_f64_bits);
    text.append(",\"offset_f64_bits\":");
    text.append(json_string(band.offset_f64_bits.as_str()).as_str());
    if placed {
        text.append(",\"original_band_index\":");
        push_decimal(text, band.original_band_index as u64);
    }
    text.append(",\"scalar_type\":\"");
    text.append(scalar_name(band.scalar_type));
    text.append("\",\"scale_f64_bits\":");
    text.append(json_string(band.scale_f64_bits.as_str()).as_str());
    text.append(",\"unit\":");
    push_optional(text, &band.unit);
    text.append("}");
}

/// `text` and a list of bands.
pub open spec fn with_bands(text: Seq<char>, bands: Seq<ExpectedBand>, placed: bool) -> Seq<char>
    decreases bands.len(),
{
    if bands.len() == 0 {
        text
    } else if bands.len() == 1 {
        with_band(text, bands[0], placed)
    } else {
        with_band(with_bands(text, bands.drop_last(), placed) + ","@, bands.last(), placed)
    }
}

fn push_bands(text: &mut String, bands: &[ExpectedBand], placed: bool)
    ensures
        final(text)@ == with_bands(old(text)@, bands@, placed),
{
    let ghost start = text@;
    let mut i: usize = 0;
    while i < bands.len()
        invariant
            i <= bands@.len(),
            text@ == with_bands(start, bands@.take(i as int), placed),
        decreases bands@.len() - i,
    {
        if i > 0 {
            text.append(",");
        }
        push_band(text, &bands[i], placed);
        proof {
            let next = bands@.take(i + 1);
            assert(next.drop_last() =~= bands@.take(i as int));
            assert(next.last() == bands@[i as int]);
        }
        i += 1;
    }
    assert(bands@.take(bands@.len() as int) =~= bands@);
}

/// The canonical text of a view. Where only the interpretation counts, where its bands stand
/// in the source is left out.
pub open spec fn view_text(view: ExpectedView, placed: bool) -> Seq<char> {
    let grid = view.grid;
    let raw = view.raw_metadata;
    let a = "{\"grid\":{\"crs\":"@ + quoted(grid.crs@) + ",\"height\":"@ + decimal_of(
        grid.height as nat,
    ) + ",\"transform_f64_bits\":["@;
    let b = with_texts(a, grid.transform_f64_bits@) + "],\"width\":"@ + decimal_of(
        grid.width as nat,
    ) + "},\"raw_metadata\":{\"bands\":["@;
    let c = with_bands(b, raw.bands@, placed) + "],\"pixel_convention\":"@ + quoted(
        raw.pixel_convention@,
    );
    let d = if placed {
        with_number(
            c + ",\"source_band_count\":"@ + decimal_of(raw.source_band_count as nat)
                + ",\"source_overview\":"@,
            raw.source_overview,
        )
    } else {
        c
    };
    d + "}}"@
}

fn write_view(view: &ExpectedView, placed: bool) -> (r: String)
    ensures
        r@ == view_text(*view, placed),
{
    let grid = &view.grid;
    let raw = &view.raw_metadata;
    let mut text: String = "{\"grid\":{\"crs\":".to_owned();
    text.append(json_string(grid.crs.as_str()).as_str());
    text.append(",\"height\":");
    push_decimal(&mut text, grid.height as u64);
    text.append(",\"transform_f64_bits\":[");
    push_texts(&mut text, grid.transform_f64_bits.as_slice());
    text.append("],\"width\":");
    push_decimal(&mut text, grid.width as u64);
    text.append("},\"raw_metadata\":{\"bands\":[");
    push_bands(&mut text, raw.bands.as_slice(), placed);
    text.append("],\"pixel_convention\":");
    text.append(json_string(raw.pixel_convention.as_str()).as_str());
    if placed {
        text.append(",\"source_band_count\":");
        push_decimal(&mut text, raw.source_band_count as u64);
        text.append(",\"source_overview\":");
        push_number(&mut text, raw.source_overview);
    }
    text.append("}}");
    text
}

/// Each character of a digest's text is a lower-case hexadecimal digit.
pub proof fn a_digest_is_hexadecimal(text: Seq<char>, i: int)
    requires
        0 <= i < text_digest(text).len(),
    ensures
        '0' <= text_digest(text)[i] <= '9' || 'a' <= text_digest(text)[i] <= 'f',
{
}

/// The hexadecimal SHA-256 digest of a text.
pub open spec fn text_digest(text: Seq<char>) -> Seq<char> {
    hex_of(sha256_of(utf8(text)))
}

pub(crate) fn digest_of(text: &str) -> (r: String)
    ensures
        r@ == text_digest(text@),
        r@.len() == 64,
{
    to_hex(sha256(text.as_bytes()).as_slice())
}

/// The digest of a complete view.
pub fn expected_view_sha256(view: &ExpectedView) -> (r: String)
    ensures
        r@ == text_digest(view_text(*view, true)),
        r@.len() == 64,
{
    digest_of(write_view(view, true).as_str())
}

/// The digest of what a view says of its values, wherever they stand in the source.
pub fn interpretation_sha256(view: &ExpectedView) -> (r: String)
    ensures
        r@ == text_digest(view_text(*view, false)),
        r@.len() == 64,
{
    digest_of(write_view(view, false).as_str())
}

/// The decimal text of a shift.
pub open spec fn shift_text(shift: i32) -> Seq<char> {
    if shift < 0 {
        "-"@ + decimal_of((-shift) as nat)
    } else {
        decimal_of(shift as nat)
    }
}

/// The canonical text of what selects a view of a source.
pub open spec fn selector_text(spec: SourceSpec) -> Seq<char> {
    let a = match spec.bands {
        Some(bands) => with_numbers("{\"bands\":["@, bands@) + "]"@,
        None => "{\"bands\":null"@,
    };
    let b = with_optional(a + ",\"crs\":"@, spec.crs) + ",\"format\":\""@ + format_word(spec.format)
        + "\",\"longitude_shift\":"@;
    let c = with_number(b + shift_text(spec.longitude_shift) + ",\"overview\":"@, spec.overview)
        + ",\"variable\":"@;
    with_optional(c, spec.variable) + "}"@
}

/// The digest of what selects a view of a source.
pub fn selector_sha256(spec: &SourceSpec) -> (r: String)
    ensures
        r@ == text_digest(selector_text(*spec)),
        r@.len() == 64,
{
    let mut text: String = match &spec.bands {
        Some(bands) => {
            let mut text: String = "{\"bands\":[".to_owned();
            push_numbers(&mut text, bands.as_slice());
            text.append("]");
            text
        },
        None => "{\"bands\":null".to_owned(),
    };
    text.append(",\"crs\":");
    push_optional(&mut text, &spec.crs);
    text.append(",\"format\":\"");
    text.append(format_name(spec.format));
    text.append("\",\"longitude_shift\":");
    let ghost before = text@;
    let shift: i64 = spec.longitude_shift as i64;
    if shift < 0 {
        text.append("-");
        push_decimal(&mut text, (-shift) as u64);
    } else {
        push_decimal(&mut text, shift as u64);
    }
    assert(text@ =~= before + shift_text(spec.longitude_shift));
    text.append(",\"overview\":");
    push_number(&mut text, spec.overview);
    text.append(",\"variable\":");
    push_optional(&mut text, &spec.variable);
    text.append("}");
    digest_of(text.as_str())
}

} // verus!
