use skarve::cancel::Fixed;
use skarve::error::Error;
use skarve::model::Grid;
use skarve::source::{
    validate_source_spec, Band, HttpOptions, Raster, RawBandMetadata, RawBandWindow,
    RawRasterMetadata, RawScalarType,
    RawWindow, SourceFormat, SourceSpec,
};
use skarve::skv_source::SkvBounds;
use skarve::source_buffer::{plan, store_group, Request, WindowRead, CONTROL_BYTES};
use skarve::source_raw::{source_window_overhead, validate_window_with, ReturnedWindow};
use skarve::source_vsi::{
    arrange, decoder_bytes, prefetch_demands, read_ranges, readable_mode, Handle, Registration,
    Registry, Remote, RemoteError, Whence,
};
use skarve::source_window::{select_window_edge, PlainReader, WindowQuery};

const NO: Fixed = Fixed { requested: false };

fn working() -> usize {
    CONTROL_BYTES + 1000 + 9_000_000
}

#[test]
fn returned_windows_are_what_was_asked_for() {
    let unit = vec![Some("people".to_owned())];
    let returned = |aligned: bool, source_id: &'static str, checked: Result<(), Error>| {
        ReturnedWindow { aligned, checked, source_id, units: &[] }
    };
    let whole = ReturnedWindow {
        aligned: true,
        checked: Ok(()),
        source_id: "fixture",
        units: &unit,
    };
    let validate = |w: &ReturnedWindow, at: usize| {
        validate_window_with((2, 1), "fixture", &unit, w, (at, 0, 1, 1), &[0])
    };
    assert_eq!(validate(&whole, 1), Ok(()));
    assert_eq!(validate(&whole, 2), Err(Error::ReturnedBounds));
    assert_eq!(validate(&whole, usize::MAX), Err(Error::ReturnedBounds));
    assert_eq!(
        validate(&returned(false, "fixture", Ok(())), 0),
        Err(Error::ReturnedAlignment)
    );
    assert_eq!(validate(&returned(true, "fixture", Ok(())), 0), Err(Error::ReturnedIdentity));
    let changed = ReturnedWindow { source_id: "fixture-changed", ..whole };
    assert_eq!(validate(&changed, 0), Err(Error::ReturnedIdentity));
    let wrong = vec![Some("wrong".to_owned())];
    let mislabelled = ReturnedWindow {
        aligned: true,
        checked: Ok(()),
        source_id: "fixture",
        units: &wrong,
    };
    assert_eq!(validate(&mislabelled, 0), Err(Error::ReturnedUnit));
    let nonfinite = ReturnedWindow {
        aligned: true,
        checked: Err(Error::GridShape),
        source_id: "fixture",
        units: &unit,
    };
    assert_eq!(validate(&nonfinite, 0), Err(Error::GridShape));
}

#[test]
fn raw_windows_become_values_by_one_rule() {
    let info = RawBandMetadata {
        scalar_type: RawScalarType::Int16,
        nodata_f64_bits: None,
        scale_f64_bits: 2f64.to_bits(),
        offset_f64_bits: 0,
        unit: Some("m".to_owned()),
        mask_flags: 0,
        original_band_index: 0,
        description: String::new(),
    };
    let window = RawWindow {
        width: 2,
        height: 1,
        bands: vec![RawBandWindow { samples_le: vec![1, 0, 255, 255], mask: vec![255, 0] }],
    };
    let rule = |_band: usize, bits: u64, mask: u8| {
        ((bits as u16 as i16) as f64 * 2., mask != 0)
    };
    let metadata = RawRasterMetadata {
        bands: vec![info],
        pixel_convention: "Area".to_owned(),
        source_band_count: 1,
        source_overview: None,
    };
    let grid = Grid {
        width: 10,
        height: 10,
        transform_bits: [100f64, 2., 0., 50., 0., -1.].map(f64::to_bits),
        crs: "EPSG:4326".to_owned(),
    };
    let shift = |bits: [u64; 6], x: usize, y: usize| {
        let mut moved = bits.map(f64::from_bits);
        moved[0] += x as f64 * moved[1];
        moved[3] += y as f64 * moved[5];
        moved.map(f64::to_bits)
    };
    let read = |x: usize, bands: &[usize], most: usize| {
        window.normalize(&metadata, &grid, 1, "source", x, 0, bands, most, &rule, &shift, &NO)
    };
    let raster = read(8, &[0], 1 << 30).unwrap();
    assert_eq!((raster.grid.width, raster.grid.height), (2, 1));
    assert_eq!(raster.grid.crs, "EPSG:4326");
    assert_eq!(raster.grid.transform_bits.map(f64::from_bits)[0], 116.);
    assert_eq!(raster.source_id, "source");
    let bands = raster.bands;
    assert_eq!(bands[0].values, vec![2., -2.]);
    assert_eq!(bands[0].valid, vec![true, false]);
    assert_eq!(bands[0].unit.as_deref(), Some("m"));
    assert_eq!(
        read(9, &[0], 1 << 30).err(),
        Some(Error::TypedWindow)
    );
    assert_eq!(
        read(8, &[1], 1 << 30).err(),
        Some(Error::TypedBands)
    );
    assert_eq!(
        read(8, &[0], 1).err(),
        Some(Error::TypedBudget)
    );
    assert!(source_window_overhead(3) > 0);
}

#[test]
fn specifications_are_admitted_or_refused_for_one_reason() {
    let spec = || SourceSpec {
        location: "a.tif".to_owned(),
        format: SourceFormat::Geotiff,
        variable: None,
        overview: None,
        crs: None,
        longitude_shift: 0,
        bands: None,
        use_summaries: true,
        identity: None,
        http: HttpOptions::default(),
    };
    assert_eq!(validate_source_spec(&spec()), Ok(()));
    let refused = |change: &dyn Fn(&mut SourceSpec), e: Error| {
        let mut s = spec();
        change(&mut s);
        assert_eq!(validate_source_spec(&s), Err(e));
    };
    refused(&|s| s.location = "x".repeat(16385), Error::SourceLocationBudget);
    refused(&|s| s.location = "a\nb".to_owned(), Error::SourceLocation);
    refused(&|s| s.overview = Some(64), Error::SourceOverview);
    refused(&|s| s.location = "ftp://host/a".to_owned(), Error::SourceTransport);
    refused(&|s| s.location = "/vsicurl/a".to_owned(), Error::SourceTransport);
    refused(&|s| s.longitude_shift = 360, Error::SourceLongitude);
    refused(&|s| s.http.max_range_bytes = 0, Error::SourceLimits);
    refused(&|s| s.bands = Some(vec![1, 1]), Error::SourceBands);
    refused(&|s| s.crs = Some(String::new()), Error::SourceCrs);
}

#[test]
fn output_is_laid_out_and_read_in_groups() {
    let request = Request {
        source: "s".to_owned(),
        window: [1, 2, 3, 2],
        bands: vec![2, 0, 1],
        working_bytes: working(),
    };
    let scalars = [RawScalarType::Byte, RawScalarType::UInt16, RawScalarType::Float64];
    let reader = SkvBounds { scalars: scalars.to_vec() };
    let p = plan(&reader, &request, 1000, 10, 10, Some(&scalars), 2, &NO).unwrap();
    let bands: Vec<usize> = p.places.iter().map(|p| p.band).collect();
    assert_eq!(bands, vec![2, 0, 1]);
    assert_eq!(p.places[0].bytes, 48);
    assert_eq!(p.places[0].cells, 6);
    let groups: Vec<(usize, usize)> = p.groups.iter().map(|g| (g.first, g.end)).collect();
    assert_eq!(groups, vec![(0, 2), (2, 3)]);
    // Nine and two bytes for each of six cells, and 8 MiB.
    assert_eq!(p.read_bound, 66 + 8_388_608);
    let mut output = vec![0u8; 1000];
    let window = RawWindow {
        width: 3,
        height: 2,
        bands: vec![RawBandWindow { samples_le: vec![7; 12], mask: vec![255; 6] }],
    };
    store_group(&mut output, &p.places, p.groups[1], 3, 2, &window, &NO).unwrap();
    let place = p.places[2];
    assert_eq!(&output[place.offset..place.offset + 12], &[7; 12]);
    assert_eq!(&output[place.mask..place.mask + 6], &[255; 6]);
    assert_eq!(output.iter().filter(|&&b| b != 0).count(), 18);
    assert_eq!(
        store_group(&mut output, &p.places, p.groups[0], 3, 2, &window, &NO),
        Err(Error::RawShape)
    );
    let refused = |change: &dyn Fn(&mut Request), e: Error| {
        let mut r = Request {
            source: "s".to_owned(),
            window: [1, 2, 3, 2],
            bands: vec![2, 0, 1],
            working_bytes: working(),
        };
        change(&mut r);
        assert_eq!(
            plan(&reader, &r, 1000, 10, 10, Some(&scalars), 2, &NO).err(),
            Some(e)
        );
    };
    refused(&|r| r.working_bytes = 1, Error::WindowResources);
    refused(&|r| r.window = [8, 0, 3, 1], Error::WindowOutside);
    refused(&|r| r.bands = vec![3], Error::WindowBands);
    refused(&|r| r.window = [0, 0, 10, 10], Error::WindowCapacity);
    refused(&|r| r.working_bytes = CONTROL_BYTES + 999, Error::WindowWorking);
    assert_eq!(
        plan(&reader, &request, 1000, 10, 10, None, 2, &NO).err(),
        Some(Error::NoScalars)
    );
    assert_eq!(
        plan(&reader, &request, 1000, 10, 10, Some(&scalars), 0, &NO).err(),
        Some(Error::NoBandGroup)
    );
}

#[test]
fn edges_grow_to_the_blocks_of_the_source() {
    let occupied = [(0, 0), (0, 1), (1, 0), (1, 1)];
    let query = |occupied: &'static [(usize, usize)], requested_edge: usize| WindowQuery {
        width: 256,
        height: 256,
        blocks: &[(256, 256)],
        max_read_bands: 20,
        requested_edge,
        indices: &[0],
        occupied,
        max_bytes: 1 << 30,
    };
    let reader = PlainReader { bands: 1 };
    let decision = select_window_edge(
        &reader,
        &WindowQuery { occupied: &occupied, ..query(&[], 32) },
    )
    .unwrap();
    assert_eq!(decision.requested_edge, 32);
    assert!(decision.selected_edge >= 32);
    assert!(decision.candidates.iter().any(|c| c.edge == decision.selected_edge));
    assert_eq!(select_window_edge(&reader, &query(&[], 33)).err(), Some(Error::WindowEdge));
    assert_eq!(
        select_window_edge(&reader, &query(&[(100, 0)], 32)).err(),
        Some(Error::WindowTile)
    );
}

#[test]
fn a_window_is_filled_group_by_group() {
    let request = Request {
        source: "s".to_owned(),
        window: [0, 0, 2, 1],
        bands: vec![0, 1],
        working_bytes: working(),
    };
    let scalars = [RawScalarType::Byte, RawScalarType::UInt16];
    let reader = SkvBounds { scalars: scalars.to_vec() };
    let p = plan(&reader, &request, 100, 10, 10, Some(&scalars), 1, &NO).unwrap();
    let places = p.places.clone();
    let mut output = vec![0u8; 100];
    let mut read = WindowRead::new(p, 2, 1, &output);
    let window = |value: u8, bytes: usize| RawWindow {
        width: 2,
        height: 1,
        bands: vec![RawBandWindow { samples_le: vec![value; bytes], mask: vec![255; 2] }],
    };
    let stop = Fixed { requested: true };
    assert_eq!(read.next(&stop), Err(Error::Cancelled));
    assert_eq!(read.next(&NO).unwrap().map(|g| (g.first, g.end)), Some((0, 1)));
    assert_eq!(read.take(&mut output, &window(3, 2), &stop), Err(Error::Cancelled));
    assert_eq!(read.take(&mut output, &window(3, 3), &NO), Err(Error::RawPayload));
    assert_eq!(read.at, 0);
    assert_eq!(read.take(&mut output, &window(3, 2), &NO), Ok(()));
    assert_eq!(read.take(&mut output, &window(5, 4), &NO), Ok(()));
    assert_eq!(read.next(&NO), Ok(None));
    assert_eq!(&output[places[0].offset..places[0].offset + 2], &[3; 2]);
    assert_eq!(&output[places[1].offset..places[1].offset + 4], &[5; 4]);
}

#[test]
fn a_path_is_given_out_once() {
    let mut registry = Registry::new();
    let remote = || Remote { length: 1u64, max_range_bytes: 1, metrics: 0u8, identity: 0u8 };
    let mut paths = Vec::new();
    for _ in 0..3 {
        let source = Registration::new(&mut registry, remote(), 0).unwrap();
        registry.remove(source.number);
        assert!(!paths.contains(&source.path));
        paths.push(source.path);
    }
    for _ in 0..128 {
        Registration::new(&mut registry, remote(), 0).unwrap();
    }
    assert_eq!(Registration::new(&mut registry, remote(), 0).err(), Some(Error::RemoteHandles));
    assert_eq!(registry.numbers.len(), 128);
}

#[test]
fn remote_sources_run_one_operation_at_a_time_until_they_fail() {
    let mut registry = Registry::new();
    let remote = || Remote { length: 1000u64, max_range_bytes: 100, metrics: 1u8, identity: 2u8 };
    let mut a = Registration::new(&mut registry, remote(), 0).unwrap();
    let b = Registration::new(&mut registry, remote(), 0).unwrap();
    assert_ne!(a.path, b.path);
    // The decoder asks for a name without the prefix of its path.
    let name = |path: &str| path.trim_start_matches("/vsiskarve/").to_owned();
    assert_eq!(registry.lookup(&name(&a.path)), Some(a.number));
    registry.remove(b.number);
    assert_eq!(registry.lookup(&name(&b.path)), None);
    a.operation(&NO).unwrap();
    assert_eq!(a.operation(&NO), Err(Error::RemoteBusy));
    a.release();
    a.operation(&NO).unwrap();
    assert_eq!(a.range_bound(), 100);
    assert_eq!((*a.metrics(), *a.registered_identity()), (1, 2));
    assert!(a.verify(|| Ok(())).is_ok());
    assert!(matches!(
        a.verify(|| Err("changed".to_owned())),
        Err(RemoteError::Transport(text)) if text == "changed"
    ));
    a.fail("first".to_owned());
    a.fail("second".to_owned());
    assert!(matches!(a.check_error(), Err(RemoteError::Failed(text)) if text == "first"));
    assert!(matches!(a.verify(|| Ok(())), Err(RemoteError::Failed(_))));
    assert!(a.check(&NO).is_err());
}

#[test]
fn positioned_reads_ask_for_whole_ranges() {
    assert_eq!(read_ranges(1000, 950, 200, 30), Ok(vec![(950, 30), (980, 20)]));
    assert_eq!(read_ranges(1000, 1001, 1, 30), Err(Error::RemoteOffset));
    assert_eq!(read_ranges(1000, 1000, 1, 30), Ok(vec![]));
    assert_eq!(arrange(&[(5, 1), (1, 2), (5, 1)]), vec![(1, 2), (5, 1)]);
    assert_eq!(prefetch_demands(&[(5, 1), (1, 2)], 10), Some(vec![(1, 2), (5, 1)]));
    assert_eq!(prefetch_demands(&[(1, 5), (3, 2)], 10), None);
    assert_eq!(prefetch_demands(&[(1, 50)], 10), None);
    assert!(readable_mode(b"rb") && !readable_mode(b"wb"));
    assert_eq!(decoder_bytes(3, 4), Ok(12));
    assert!(decoder_bytes(usize::MAX, 2).is_err());
    let mut handle = Handle::open();
    assert!(handle.seek(10, Whence::Start, 100));
    assert!(handle.seek(5, Whence::Current, 100));
    assert_eq!(handle.position, 15);
    assert!(handle.seek(0, Whence::End, 100));
    assert_eq!(handle.position, 100);
    // An offset that is not from the start is signed.
    assert!(handle.seek(u64::MAX, Whence::Current, 100));
    assert_eq!(handle.position, 99);
    assert!(!handle.seek(2, Whence::Current, 100));
    assert!(!handle.seek(101, Whence::Start, 100));
    assert_eq!(handle.position, 99);
}

fn fixture() -> (Vec<Option<String>>, Raster<f64>) {
    let unit = Some("people".to_owned());
    let raster = Raster {
        grid: Grid {
            width: 1,
            height: 1,
            transform_bits: [0f64, 1., 0., 1., 0., -1.].map(f64::to_bits),
            crs: "LOCAL".to_owned(),
        },
        bands: vec![Band { values: vec![1.], valid: vec![true], unit: unit.clone() }],
        source_id: "fixture".to_owned(),
    };
    (vec![unit], raster)
}

fn check(declared: &[Option<String>], raster: &Raster<f64>, whole: bool) -> Result<(), Error> {
    let finite = |v: f64| v.is_finite();
    let checked =
        if whole { raster.validate(&finite) } else { raster.validate_structure() };
    let units: Vec<Option<String>> = raster.bands.iter().map(|b| b.unit.clone()).collect();
    let returned =
        ReturnedWindow { aligned: true, checked, source_id: &raster.source_id, units: &units };
    validate_window_with((1, 1), "fixture", declared, &returned, (0, 0, 1, 1), &[0])
}

#[test]
fn structure_keeps_unit_metadata_identity_and_shape_guards() {
    for fault in ["unit_cap", "unit_mapping", "identity", "mask", "crs_cap"] {
        let (mut declared, mut raster) = fixture();
        match fault {
            "unit_cap" => {
                declared[0] = Some("u".repeat(1025));
                raster.bands[0].unit = declared[0].clone();
            }
            "unit_mapping" => raster.bands[0].unit = Some("wrong".into()),
            "identity" => raster.source_id.push_str("-changed"),
            "mask" => raster.bands[0].valid.clear(),
            "crs_cap" => raster.grid.crs = "c".repeat(4097),
            _ => unreachable!(),
        }
        assert!(check(&declared, &raster, false).is_err(), "{fault}");
        assert!(check(&declared, &raster, true).is_err(), "{fault}");
    }
    let (declared, raster) = fixture();
    assert_eq!(check(&declared, &raster, true), Ok(()));
}

#[test]
fn full_consumer_contract_still_rejects_valid_nonfinite_samples() {
    let (declared, mut raster) = fixture();
    for value in [f64::INFINITY, f64::NEG_INFINITY, f64::NAN] {
        raster.bands[0].values[0] = value;
        raster.bands[0].valid[0] = true;
        check(&declared, &raster, false).unwrap();
        assert_eq!(check(&declared, &raster, true), Err(Error::ValidNonfinite));
        raster.bands[0].valid[0] = false;
        check(&declared, &raster, true).unwrap();
    }
}
