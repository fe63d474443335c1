use sha2::Digest;
use skarve::cancel::Fixed;
use skarve::canonical::Document;
use skarve::error::Error;
use skarve::source::{
    ContentIdentity, HttpOptions, SourceFormat, SourceSpec, VerificationPolicy,
};
use skarve::source_adapter::{
    decode_band_factor, extra_encoded_cache_bytes, prepared_together, qualify_pixel, store_step,
    Demand, Demands, PixelAdmission, ReadWindow, RemoteLayout, SourceAdapter, TiffBand, TiffLayout,
    PIXEL_CODEC_RESERVE,
};
use skarve::source_axes::{check_axis, coordinate_sha256, spatial_dimensions, Axis};
use skarve::source_open::{
    check_content, check_local, check_opened, check_remote, check_scan, dataset_name,
    exposed_bands, hint_of, hint_of_path, inherit, interpreted_source_id, lower_digest, mask_flags, open_source,
    open_source_for_compile, open_source_with_band_limit, prefix_seed, probe_length, probed_skv,
    raw_band, source_id, BandReading, DeclaredScaling, Hint, Route,
};
use skarve::source::{RawBandWindow, RawScalarType};

const NO: Fixed = Fixed { requested: false };

fn spec(location: &str, format: SourceFormat) -> SourceSpec {
    SourceSpec {
        location: location.to_owned(),
        format,
        variable: None,
        overview: None,
        crs: None,
        longitude_shift: 0,
        bands: None,
        use_summaries: true,
        identity: None,
        http: HttpOptions::default(),
    }
}

fn identity(policy: VerificationPolicy, etag: Option<&str>) -> ContentIdentity {
    ContentIdentity {
        // The digest of "abc".
        sha256: "BA7816BF8F01CFEA414140DE5DAE2223B00361A396177A9CB410FF61F20015AD".to_owned(),
        byte_length: 3,
        policy,
        etag: etag.map(str::to_owned),
    }
}

#[test]
fn extensions_of_paths_and_urls_hint_at_a_reader() {
    assert_eq!(hint_of_path("a/b.skv"), Hint::Skv);
    assert_eq!(hint_of_path("a/b.SKV"), Hint::Skv);
    assert_eq!(hint_of_path("a/b.TiF"), Hint::Tiff);
    assert_eq!(hint_of_path("a/b.tiff/"), Hint::Tiff);
    assert_eq!(hint_of_path("a/b.tiff/."), Hint::Tiff);
    assert_eq!(hint_of_path("a/.tif"), Hint::Unknown);
    assert_eq!(hint_of_path("a.tif/b"), Hint::Unknown);
    assert_eq!(hint_of_path("a.tif/.."), Hint::Unknown);
    assert_eq!(hint_of_path("tif"), Hint::Unknown);
    assert_eq!(hint_of_path(""), Hint::Unknown);
    // The path of a URL counts, and not what follows it.
    assert_eq!(hint_of("https://host/a/b.tif?version=2"), Hint::Tiff);
    assert_eq!(hint_of("https://host/a?name=b.tif"), Hint::Unknown);
    assert_eq!(hint_of("https://host/a.skv#part"), Hint::Skv);
    assert_eq!(hint_of("https://"), Hint::Unknown);
    // Without a scheme the whole location is a path.
    assert_eq!(hint_of("a/b.tif?version=2"), Hint::Unknown);
}

#[test]
fn sources_are_routed_by_format_and_location() {
    let route = |s: &SourceSpec| open_source(s, &NO);
    assert_eq!(route(&spec("a.tif", SourceFormat::Geotiff)), Ok(Route::Local { probe: false }));
    assert_eq!(route(&spec("a.bin", SourceFormat::Geotiff)), Ok(Route::Local { probe: true }));
    assert_eq!(route(&spec("a.nc", SourceFormat::Netcdf)), Ok(Route::Local { probe: false }));
    assert_eq!(route(&spec("a.skv", SourceFormat::Geotiff)), Ok(Route::Skv));
    assert_eq!(route(&spec("a.bin", SourceFormat::Skv)), Ok(Route::Skv));
    assert_eq!(
        route(&spec("https://host/a.tif", SourceFormat::Geotiff)),
        Ok(Route::Remote { probe: false })
    );
    assert_eq!(
        route(&spec("https://host/a", SourceFormat::Geotiff)),
        Ok(Route::Remote { probe: true })
    );
    assert_eq!(
        route(&spec("https://host/a.nc", SourceFormat::Netcdf)),
        Err(Error::RemoteNetcdf)
    );
    let mut prefetching = spec("a.skv", SourceFormat::Skv);
    prefetching.http.metadata_prefetch_bytes = 1;
    assert_eq!(route(&prefetching), Err(Error::PrefetchFormat));
    let mut banded = spec("a.tif", SourceFormat::Geotiff);
    banded.bands = Some(vec![0, 1, 2]);
    assert_eq!(open_source_with_band_limit(&banded, &NO, 2), Err(Error::SourceBands));
    assert_eq!(open_source(&spec("", SourceFormat::Geotiff), &NO), Err(Error::SourceLocationBudget));
    assert_eq!(open_source(&banded, &Fixed { requested: true }), Err(Error::Cancelled));
    assert_eq!(
        open_source_for_compile(&spec("a.nc", SourceFormat::Netcdf), &NO),
        Err(Error::CompileFormat)
    );
    assert_eq!(
        open_source_for_compile(&spec("a.tif", SourceFormat::Geotiff), &NO),
        Ok(Route::Local { probe: false })
    );
}

#[test]
fn probes_look_at_eight_bytes() {
    assert_eq!(probe_length(false, 100), 0);
    assert_eq!(probe_length(true, 100), 8);
    assert_eq!(probe_length(true, 5), 5);
    let mut http = HttpOptions::default();
    assert_eq!(probed_skv(b"SKVRAST\0", true, &http), Ok(true));
    assert_eq!(probed_skv(b"II*\0\0\0\0\0", true, &http), Ok(false));
    assert_eq!(probed_skv(b"SKV", true, &http), Ok(false));
    http.small_read_page_bytes = 4096;
    assert_eq!(probed_skv(b"SKVRAST\0", true, &http), Err(Error::PrefetchFormat));
    assert_eq!(probed_skv(b"SKVRAST\0", false, &http), Ok(true));
}

#[test]
fn declared_identities_are_held_against_the_content() {
    let verify = identity(VerificationPolicy::Verify, Some("\"1\""));
    assert_eq!(check_remote(&verify, 3, "\"1\"", 10), Ok(true));
    assert_eq!(check_remote(&verify, 4, "\"1\"", 10), Err(Error::RemoteLength));
    assert_eq!(check_remote(&verify, 3, "\"2\"", 10), Err(Error::RemoteValidator));
    assert_eq!(check_remote(&verify, 3, "\"1\"", 2), Err(Error::VerificationBudget));
    let trusted = identity(VerificationPolicy::TrustedManifest, None);
    assert_eq!(check_remote(&trusted, 3, "\"1\"", 10), Err(Error::RemoteManifest));
    assert_eq!(check_local(&verify, 3, false), Ok(true));
    assert_eq!(check_local(&trusted, 3, false), Ok(false));
    assert_eq!(check_local(&verify, 3, true), Err(Error::SourceSidecar));
    assert_eq!(check_local(&verify, 2, false), Err(Error::LocalLength));
    assert_eq!(check_content(b"abc", &verify, true), Ok(()));
    assert_eq!(check_content(b"abd", &verify, true), Err(Error::RemoteDigest));
    assert_eq!(check_content(b"abd", &verify, false), Err(Error::LocalDigest));
    let found = lower_digest(&verify);
    assert_eq!(found, "ba7816bf8f01cfea414140de5dae2223b00361a396177a9cb410ff61f20015ad");
    assert_eq!(check_scan(&found, &verify, false, true), Ok(()));
    assert_eq!(check_scan(&found, &verify, false, false), Err(Error::SourceChanged));
}

#[test]
fn seeds_fit_the_range_and_the_cache() {
    let mut http = HttpOptions::default();
    assert_eq!(prefix_seed(&http, 1000), Ok(0));
    http.metadata_prefetch_bytes = 512;
    assert_eq!(prefix_seed(&http, 1000), Ok(512));
    assert_eq!(prefix_seed(&http, 100), Ok(100));
    assert_eq!(prefix_seed(&http, 0), Err(Error::PrefetchCapacity));
    http.cache_bytes = 600;
    assert_eq!(prefix_seed(&http, 1000), Err(Error::PrefetchCapacity));
}

#[test]
fn datasets_are_named_for_their_driver() {
    let mut tiff = spec("a.tif", SourceFormat::Geotiff);
    tiff.overview = Some(12);
    let named = dataset_name(&tiff, "/data/a.tif").unwrap();
    assert_eq!(named.name, "/data/a.tif");
    assert_eq!(named.option.as_deref(), Some("OVERVIEW_LEVEL=12only"));
    tiff.variable = Some("t".to_owned());
    assert_eq!(dataset_name(&tiff, "a").err(), Some(Error::TiffVariable));
    let mut netcdf = spec("a.nc", SourceFormat::Netcdf);
    assert_eq!(dataset_name(&netcdf, "a").err(), Some(Error::NetcdfVariable));
    netcdf.variable = Some("t 2".to_owned());
    assert_eq!(dataset_name(&netcdf, "a").err(), Some(Error::NetcdfSelector));
    netcdf.variable = Some("t_2-m".to_owned());
    assert_eq!(dataset_name(&netcdf, "a\"b").err(), Some(Error::NetcdfQuoting));
    assert_eq!(dataset_name(&netcdf, "/d/a.nc").unwrap().name, "NETCDF:\"/d/a.nc\":t_2-m");
}

#[test]
fn bands_are_mapped_and_overviews_inherit() {
    let mut tiff = spec("a.tif", SourceFormat::Geotiff);
    assert_eq!(exposed_bands(&tiff, 3, 64), Ok(vec![0, 1, 2]));
    assert_eq!(exposed_bands(&tiff, 0, 64), Err(Error::NativeBands));
    assert_eq!(exposed_bands(&tiff, 65, 64), Err(Error::NativeBands));
    tiff.bands = Some(vec![2, 0]);
    assert_eq!(exposed_bands(&tiff, 3, 64), Ok(vec![2, 0]));
    let reading = |nodata: Option<f64>, unit: Option<&str>| BandReading {
        data_type: "Float32".to_owned(),
        nodata_bits: nodata.map(f64::to_bits),
        scale_bits: 2f64.to_bits(),
        offset_bits: 0f64.to_bits(),
        unit: unit.map(str::to_owned),
    };
    let parent = reading(Some(-1.), Some("m"));
    let silent = DeclaredScaling { scale_bits: None, offset_bits: Some((-0f64).to_bits()) };
    let inherited = inherit(&reading(None, None), silent, &parent).unwrap();
    assert_eq!(inherited.nodata_bits, Some((-1f64).to_bits()));
    assert_eq!(inherited.unit.as_deref(), Some("m"));
    let scaled = DeclaredScaling { scale_bits: Some(3f64.to_bits()), offset_bits: None };
    assert_eq!(
        inherit(&reading(None, None), scaled, &parent).err(),
        Some(Error::OverviewScaling)
    );
    assert_eq!(
        inherit(&reading(Some(0.), None), silent, &parent).err(),
        Some(Error::OverviewNodata)
    );
    assert_eq!(
        inherit(&reading(None, Some("km")), silent, &parent).err(),
        Some(Error::OverviewUnit)
    );
    let other = BandReading { data_type: "Byte".to_owned(), ..reading(None, None) };
    assert_eq!(inherit(&other, silent, &parent).err(), Some(Error::OverviewScalar));
    assert_eq!(mask_flags(true, false, true, true), 13);
    let band = raw_band(&parent, 4, 8, "", Some("from the parent")).unwrap();
    assert_eq!(band.scalar_type, RawScalarType::Float32);
    assert_eq!(band.description, "from the parent");
    assert_eq!(band.original_band_index, 4);
    assert_eq!(
        raw_band(&parent, 4, 8, &"d".repeat(1025), None).err(),
        Some(Error::DescriptionBudget)
    );
    let complex = BandReading { data_type: "CFloat32".to_owned(), ..reading(None, None) };
    assert_eq!(raw_band(&complex, 0, 0, "", None).err(), Some(Error::UnsupportedScalar));
}

#[test]
fn opened_sources_meet_what_is_left() {
    let tiff = spec("a.tif", SourceFormat::Geotiff);
    assert_eq!(check_opened(&tiff, true, "LOCAL", &[(4, 4)], "Area"), Ok(()));
    assert_eq!(
        check_opened(&tiff, false, "LOCAL", &[(4, 4), (4, 0)], "Area"),
        Err(Error::MaskBlock)
    );
    assert_eq!(
        check_opened(&tiff, false, "LOCAL", &[(4, 4)], &"A".repeat(1025)),
        Err(Error::RegistrationBudget)
    );
    let mut netcdf = spec("a.nc", SourceFormat::Netcdf);
    assert_eq!(check_opened(&netcdf, true, "LOCAL", &[], "Area"), Err(Error::Curvilinear));
    netcdf.longitude_shift = 360;
    assert_eq!(check_opened(&netcdf, false, "LOCAL", &[], "Area"), Err(Error::LongitudeCrs));
    assert_eq!(check_opened(&netcdf, false, "EPSG:4326", &[], "Area"), Ok(()));
}

#[test]
fn identities_do_not_depend_on_the_place() {
    let declared = Some(identity(VerificationPolicy::Verify, None));
    let lower = Some(ContentIdentity {
        sha256: declared.as_ref().unwrap().sha256.to_ascii_lowercase(),
        ..identity(VerificationPolicy::TrustedManifest, Some("\"1\""))
    });
    let interpretation = "0".repeat(64);
    let a = source_id(&declared, "https://one/a.tif", &interpretation);
    let b = source_id(&lower, "/data/b.tif", &interpretation);
    assert_eq!(a, b);
    assert!(a.starts_with("content-interpretation-sha256:"));
    assert_eq!(a.len(), "content-interpretation-sha256:".len() + 64);
    let c = source_id(&None, "base", &interpretation);
    assert!(c.starts_with("source-interpretation-sha256:"));
    assert_ne!(c, source_id(&None, "other", &interpretation));
    // The digest of the text "[\"a\",\"b\"]".
    let expected: String =
        sha2::Sha256::digest(b"[\"a\",\"b\"]").iter().map(|b| format!("{b:02x}")).collect();
    assert_eq!(source_id(&None, "a", "b"), format!("source-interpretation-sha256:{expected}"));
}

fn layout() -> TiffLayout {
    TiffLayout {
        version: "3080400".to_owned(),
        format: SourceFormat::Geotiff,
        overview: None,
        driver: "GTiff".to_owned(),
        interleave: Some("PIXEL".to_owned()),
        compression: Some("DEFLATE".to_owned()),
        predictor: None,
        width: 500,
        height: 300,
        bands: vec![
            TiffBand {
                kind: "Float32".to_owned(),
                block: (256, 256),
                mask_block: (256, 256),
                all_valid: true,
                per_dataset: false,
                alpha: false,
                nodata: false,
            },
        ],
    }
}

#[test]
fn known_layouts_qualify_with_their_largest_block() {
    let sizes = [Some(1000), Some(5000), Some(1024), Some(1)];
    assert_eq!(layout().qualified_tiles(), Some((2, 2)));
    assert_eq!(
        qualify_pixel(&layout(), &sizes, &NO),
        Ok(Some(PixelAdmission { width: 256, height: 256, bands: 1, encoded: 5120 }))
    );
    assert_eq!(qualify_pixel(&layout(), &[Some(1), None, Some(1), Some(1)], &NO), Ok(None));
    assert_eq!(qualify_pixel(&layout(), &[Some(1), Some(0), Some(1), Some(1)], &NO), Ok(None));
    assert_eq!(
        qualify_pixel(&layout(), &[Some(1), Some(33554433), Some(1), Some(1)], &NO),
        Ok(None)
    );
    let mut other = layout();
    other.predictor = Some("2".to_owned());
    assert_eq!(other.qualified_tiles(), None);
    let mut strips = layout();
    strips.bands[0].block = (500, 8);
    assert_eq!(strips.qualified_tiles(), None);
    let mut masked = layout();
    masked.bands[0].all_valid = false;
    assert_eq!(masked.qualified_tiles(), None);
    masked.bands[0].nodata = true;
    assert_eq!(masked.qualified_tiles(), Some((2, 2)));
}

fn adapter() -> SourceAdapter {
    SourceAdapter {
        width: 500,
        height: 300,
        blocks: vec![(256, 256), (256, 256)],
        mask_blocks: vec![(256, 256), (256, 256)],
        decode_band_factor: 2,
        typed: true,
        range_bound: None,
        pixel_admission: None,
        extra_encoded_cache_bytes: 0,
    }
}

#[test]
fn reads_are_bounded_by_the_blocks_they_can_touch() {
    let a = adapter();
    // A step of 100 rows of 100 columns can touch four blocks of each band.
    let blocks = 4 * 256 * 256;
    assert_eq!(
        a.bounded_read_buffer(100, 100, &[0, 1], 20, Ok(7)),
        Ok(7 + blocks * 9 * 2 + 2 * blocks)
    );
    let apart = SourceAdapter { decode_band_factor: 1, ..adapter() };
    assert_eq!(
        apart.bounded_read_buffer(100, 100, &[0, 1], 20, Ok(7)),
        Ok(7 + 2 * blocks * 9 + 2 * blocks)
    );
    assert_eq!(a.bounded_read_buffer(100, 100, &[], 20, Ok(7)), Err(Error::AdapterBands));
    assert_eq!(a.bounded_read_buffer(100, 100, &[2], 20, Ok(7)), Err(Error::AdapterBand));
    assert_eq!(
        a.bounded_read_buffer(usize::MAX, 100, &[0], 20, Ok(7)),
        Err(Error::AdapterBlockBound)
    );
    assert_eq!(a.bounded_read_buffer(100, 100, &[0], 20, Ok(usize::MAX)), Err(Error::AdapterBuffer));
    assert_eq!(
        a.raw_read_buffer_bound(100, 100, &[0], Ok(0)),
        Ok(blocks * 9 * 2 + blocks + 100 * 100 * 8)
    );
    assert_eq!(a.raw_read_buffer_bound(100, 100, &[0, 0], Ok(0)), Err(Error::RawBandGroup));
    let untyped = SourceAdapter { typed: false, ..adapter() };
    assert_eq!(untyped.raw_read_buffer_bound(100, 100, &[0], Ok(0)), Err(Error::RawAccess));
    assert_eq!(a.max_raw_read_bands(), 20);
    assert_eq!(a.retained_memory_bound(), 16 * 1024 * 1024);
}

#[test]
fn one_tile_of_a_qualified_source_has_its_own_bound() {
    let p = PixelAdmission { width: 256, height: 256, bands: 2, encoded: 5120 };
    let a = SourceAdapter {
        pixel_admission: Some(p),
        range_bound: Some(4 * 1024 * 1024),
        ..adapter()
    };
    let tile = 256 * 256 * (9 * 2 + 4) + 2 * 5120 + PIXEL_CODEC_RESERVE;
    let transport = 4 * 1024 * 1024 + 65536;
    assert_eq!(
        a.raw_read_buffer_bound_at(256, 256, 100, 40, &[0, 1], Ok(0)),
        Ok(100 * 40 * (5 * 2 + 4) + tile + transport)
    );
    // A window over two tiles has the bound of any window.
    assert_eq!(
        a.raw_read_buffer_bound_at(200, 0, 100, 40, &[0], Ok(0)),
        a.raw_read_buffer_bound(100, 40, &[0], Ok(0))
    );
    assert_eq!(
        a.raw_read_buffer_bound_at(450, 0, 100, 40, &[0], Ok(0)),
        Err(Error::RawOutside)
    );
    assert_eq!(a.max_raw_read_bands(), 64);
    assert_eq!(a.retained_memory_bound(), 16 * 1024 * 1024 + 5120 + PIXEL_CODEC_RESERVE);
    assert_eq!(a.safe_cells(), Some(65536));
    assert_eq!(adapter().safe_cells(), None);
    assert_eq!(a.admit_read(Ok(10), true, 9, &NO), Err(Error::RawWindowBudget));
    assert_eq!(a.admit_read(Ok(10), false, 9, &NO), Err(Error::SourceWindowBudget));
    assert_eq!(a.admit_read(Ok(10), false, 10, &NO), Ok(()));
}

#[test]
fn demands_are_ordered_unique_and_apart() {
    let mut demands = Demands::new();
    assert_eq!(demands.offer(Some(100), Some(10), 50), Demand::Next);
    assert_eq!(demands.offer(Some(20), Some(10), 50), Demand::Next);
    assert_eq!(demands.offer(Some(100), Some(10), 50), Demand::Next);
    assert_eq!(demands.offer(Some(0), Some(10), 50), Demand::Next);
    assert_eq!(demands.ranges, vec![(20, 10), (100, 10)]);
    assert_eq!(demands.offer(None, Some(10), 50), Demand::Nothing);
    assert_eq!(demands.offer(Some(1), Some(51), 50), Demand::Nothing);
    assert_eq!(demands.finish(), Some(vec![(20, 10), (100, 10)]));
    let mut overlapping = Demands::new();
    overlapping.offer(Some(100), Some(10), 50);
    overlapping.offer(Some(105), Some(10), 50);
    assert_eq!(overlapping.finish(), None);
    let mut full = Demands::new();
    for n in 0..127 {
        assert_eq!(full.offer(Some(1000 - n), Some(1), 50), Demand::Next);
    }
    assert_eq!(full.offer(Some(1), Some(1), 50), Demand::Full);
    let span = adapter().demanded(200, 10, 100, 40, 1).unwrap();
    assert_eq!((span.left, span.right, span.top, span.bottom), (0, 1, 0, 0));
    assert_eq!(adapter().demanded(450, 10, 100, 40, 1).err(), Some(Error::WindowOutside));
    let remote = RemoteLayout {
        concurrent: true,
        driver: "GTiff".to_owned(),
        layout: Some("COG".to_owned()),
        version: "3080500".to_owned(),
        bands: 2,
        interleave: Some("BAND".to_owned()),
        cache_bytes: 1,
    };
    assert!(remote.prepares());
    assert!(!RemoteLayout { interleave: Some("PIXEL".to_owned()), ..remote }.prepares());
}

#[test]
fn steps_take_rows_in_turn_and_reuse_blocks() {
    let window = ReadWindow { x: 0, y: 100, width: 400, height: 400 };
    let read = window
        .plan((500, 500), &[RawScalarType::Byte], &[(256, 256), (256, 256)], &NO)
        .unwrap();
    assert_eq!(read.cells, 160_000);
    let rows: Vec<(usize, usize)> = read.steps.iter().map(|s| (s.row, s.rows)).collect();
    assert_eq!(rows, vec![(0, 163), (163, 163), (326, 74)]);
    // Rows 100 to 262, 263 to 425 and 426 to 499: the last two lie in the same blocks.
    let flush: Vec<bool> = read.steps.iter().map(|s| s.flush).collect();
    assert_eq!(flush, vec![false, true, false]);
    assert_eq!((read.flushes, read.reused), (2, 1));
    assert_eq!(
        window.plan((500, 400), &[], &[], &NO).err(),
        Some(Error::RawOutside)
    );
    assert_eq!(
        window.plan((500, 500), &[], &[(0, 1)], &NO).err(),
        Some(Error::DecoderBlock)
    );
    let mut band = RawBandWindow { samples_le: vec![0; 8], mask: vec![0; 4] };
    let step = skarve::source_adapter::Step { row: 1, rows: 1, flush: false };
    store_step(&mut band, RawScalarType::Int16, 2, step, &[1, 2, 3, 4], &[9, 8], &NO).unwrap();
    assert_eq!(band.samples_le, vec![0, 0, 0, 0, 1, 2, 3, 4]);
    assert_eq!(band.mask, vec![0, 0, 9, 8]);
    assert_eq!(prepared_together(2, 3), Some((2, 3)));
    assert_eq!(prepared_together(0, 3), Some((0, 2)));
    assert_eq!(prepared_together(1, 3), None);
    assert_eq!(decode_band_factor(SourceFormat::Geotiff, &Some("BAND".to_owned()), 7), 1);
    assert_eq!(decode_band_factor(SourceFormat::Geotiff, &None, 7), 7);
    assert_eq!(decode_band_factor(SourceFormat::Netcdf, &None, 7), 1);
    assert_eq!(extra_encoded_cache_bytes(true, 9 * 1024 * 1024), 1024 * 1024);
    assert_eq!(extra_encoded_cache_bytes(false, 9 * 1024 * 1024), 0);
}

#[test]
fn axes_are_checked_and_exposed_from_the_top() {
    assert_eq!(spatial_dimensions(3), Ok((2, 1)));
    assert_eq!(spatial_dimensions(1), Err(Error::NetcdfDimensions));
    assert_eq!(check_axis(10, 10, true), Ok(()));
    assert_eq!(check_axis(10, 11, true), Err(Error::NetcdfShape));
    assert_eq!(check_axis(1, 1, true), Err(Error::NetcdfShape));
    assert_eq!(check_axis(10, 10, false), Err(Error::NetcdfVector));
    let rows = Axis { columns: false, size: 10, increasing: true };
    assert_eq!(rows.check_direction(), Ok(()));
    assert_eq!(rows.exposed(0), 9);
    assert_eq!(rows.exposed(rows.exposed(3)), 3);
    let columns = Axis { columns: true, size: 100_000, increasing: true };
    assert_eq!(columns.exposed(3), 3);
    assert_eq!(columns.step(65_536), 34_464);
    let backward = Axis { increasing: false, ..columns };
    assert_eq!(backward.check_direction(), Err(Error::NetcdfDescending));
    let mut hash = sha2::Sha256::new();
    hash.update(1f64.to_le_bytes());
    hash.update(2f64.to_le_bytes());
    hash.update(3f64.to_le_bytes());
    let expected: String = hash.finalize().iter().map(|b| format!("{b:02x}")).collect();
    assert_eq!(
        coordinate_sha256(&[1f64.to_bits(), 2f64.to_bits()], &[3f64.to_bits()]),
        expected
    );
}

#[test]
fn an_interpretation_is_digested_in_the_order_of_its_names() {
    let text = |t: &str| Document::Text(t.to_owned());
    let document = Document::Object(vec![
        ("grid".to_owned(), Document::Number("1.5".to_owned())),
        ("bands".to_owned(), Document::List(vec![text("a"), Document::Null])),
    ]);
    let hex = |bytes: &[u8]| -> String {
        sha2::Sha256::digest(bytes).iter().map(|b| format!("{b:02x}")).collect()
    };
    let interpretation = hex(b"{\"bands\":[\"a\",null],\"grid\":1.5}");
    assert_eq!(
        interpreted_source_id(&None, "base", &document),
        source_id(&None, "base", &interpretation)
    );
    let declared = Some(identity(VerificationPolicy::Verify, None));
    assert_eq!(
        interpreted_source_id(&declared, "base", &document),
        source_id(&declared, "other", &interpretation)
    );
}
