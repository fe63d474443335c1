use skarve::cancel::Fixed;
use skarve::error::Error;
use skarve::layout::SummaryLayout;
use skarve::model::Grid;
use skarve::skv_audit::{needs_packet, verification_limit, Audit};
use skarve::skv_build::{check_build, physical_groups, working_bound};
use skarve::skv_directory::make_page;
use skarve::skv_header::{CompileOptions, Header, HierarchyDescription};
use skarve::skv_prefetch::{
    demand_limit, leaves_allowance, pair_ranges, prepares_pair, prepares_window, tile_of,
    window_ranges, Demands,
};
use skarve::skv_serve::window_region;
use skarve::skv_source::{
    band_mapping, check_object, check_selectors, digest_matches, scan_step, validate_window,
    SkvBounds,
};
use skarve::skv_window::{pending_range_fits, Pending, Queue};
use skarve::source::{
    ContentIdentity, HttpOptions, RawBandMetadata, RawRasterMetadata, RawScalarType, SourceFormat,
    SourceSpec, VerificationPolicy,
};
use skarve::source_vsi::{
    accepts_ranges, is_spaced, prepared_batch, whence_of, Handle, Registration, Registry, Remote,
    RemoteError, Whence,
};

const NO: Fixed = Fixed { requested: false };

fn header(layout: &str) -> Header {
    let hierarchy = SummaryLayout::new(100, 70, 64, false).unwrap();
    Header {
        version: 0,
        grid: Grid { width: 100, height: 70, transform_bits: [0; 6], crs: "LOCAL".to_owned() },
        raw_metadata: RawRasterMetadata {
            bands: (0..2)
                .map(|index| RawBandMetadata {
                    scalar_type: RawScalarType::UInt16,
                    nodata_f64_bits: None,
                    scale_f64_bits: 1f64.to_bits(),
                    offset_f64_bits: 0,
                    unit: None,
                    mask_flags: 0,
                    original_band_index: index,
                    description: String::new(),
                })
                .collect(),
            pixel_convention: "Area".to_owned(),
            source_band_count: 2,
            source_overview: None,
        },
        chunk_edge: 64,
        band_group: 4,
        payload_layout: layout.to_owned(),
        codec: "deflate".to_owned(),
        predictor: "none".to_owned(),
        compression_level: 3,
        summaries: true,
        hierarchy: HierarchyDescription { tile_edge: 64, levels: hierarchy.levels },
        numerical_schema: "native_grid_planar_compensated_v1".to_owned(),
        build_id: "a".repeat(64),
        original_source_id: "source".to_owned(),
        original_identity: None,
        logical_digest: "b".repeat(64),
        directory_digest: "c".repeat(64),
        summary_disabled_reason: None,
    }
}

fn spec() -> SourceSpec {
    SourceSpec {
        location: "/data/a.skv".to_owned(),
        format: SourceFormat::Skv,
        variable: None,
        overview: None,
        crs: None,
        longitude_shift: 0,
        bands: None,
        use_summaries: true,
        identity: None,
        http: HttpOptions::default(),
    }
}

fn entry(begin: u64, size: u32) -> Pending {
    let mut record = vec![0u8; 128];
    record[..8].copy_from_slice(&begin.to_le_bytes());
    record[8..12].copy_from_slice(&size.to_le_bytes());
    Pending { out_index: 0, band: 0, id: 0, bounds: [0, 0, 64, 64], record }
}

#[test]
fn payloads_that_follow_one_another_are_read_together() {
    assert!(pending_range_fits(100, 10, 1, &entry(110, 5), 1, 15));
    assert!(!pending_range_fits(100, 10, 1, &entry(110, 6), 1, 15));
    assert!(!pending_range_fits(100, 10, 1, &entry(111, 5), 1, 15));
    assert!(!pending_range_fits(100, 10, 256, &entry(110, 5), 1, 15));
    let mut queue = Queue::new();
    assert!(!queue.must_flush(&vec![entry(100, 10)], 20));
    assert_eq!(queue.push(vec![entry(100, 10)], 20), Ok(()));
    assert!(!queue.must_flush(&vec![entry(110, 10)], 20));
    assert_eq!(queue.push(vec![entry(110, 10)], 20), Ok(()));
    assert!(queue.must_flush(&vec![entry(120, 1)], 20));
    let taken = queue.take();
    assert_eq!((taken.offset, taken.length, taken.pending.len()), (100, 20, 2));
    assert!(queue.pending.is_empty());
    assert_eq!(queue.push(vec![entry(0, 21)], 20), Err(Error::PayloadRange));
    let mut demands = Demands::new();
    let tile = [entry(100, 10), entry(110, 10), entry(200, 5)];
    assert_eq!(demands.tile(&tile, false, 1000), Ok(()));
    assert_eq!(window_ranges(demands), Some(vec![(100, 20), (200, 5)]));
    let mut refused = Demands::new();
    assert_eq!(refused.tile(&tile, false, 9), Err(Error::PayloadRange));
}

#[test]
fn ranges_are_prepared_where_a_read_needs_several() {
    assert_eq!(prepares_window(0, 0, 64, 64, 64, 1), Ok(false));
    assert_eq!(prepares_window(0, 0, 64, 64, 64, 2), Ok(true));
    assert_eq!(prepares_window(63, 0, 2, 1, 64, 1), Ok(true));
    assert_eq!(prepares_window(0, 0, 64 * 129, 1, 64, 1), Ok(false));
    assert_eq!(tile_of(64, 64, 36, 6, 64, 100, 70), Some(3));
    assert_eq!(tile_of(64, 64, 35, 6, 64, 100, 70), None);
    assert_eq!(tile_of(1, 0, 64, 64, 64, 100, 70), None);
    assert!(prepares_pair(3, 4) && prepares_pair(4, 3) && !prepares_pair(3, 3));
    assert_eq!(
        pair_ranges(&vec![(20, 5), (0, 5)], &vec![(0, 5), (9, 1)]),
        Ok(vec![(0, 5), (9, 1), (20, 5)])
    );
    assert!(leaves_allowance(0, 8));
    assert!(!leaves_allowance(usize::MAX, 8));
    assert_eq!(demand_limit(1000, true), 1000);
    assert_eq!(demand_limit(usize::MAX, false), usize::MAX);
    assert!(demand_limit(usize::MAX, true) < usize::MAX);
}

#[test]
fn an_object_is_held_against_its_specification() {
    let h = header("band");
    assert_eq!(check_selectors(&spec()), Ok(()));
    let variable = SourceSpec { variable: Some("t".to_owned()), ..spec() };
    assert_eq!(check_selectors(&variable), Err(Error::SkvSelectors));
    assert_eq!(check_object(&spec(), &h, 500, None), Ok(()));
    let crs = SourceSpec { crs: Some("EPSG:1".to_owned()), ..spec() };
    assert_eq!(check_object(&crs, &h, 500, None), Err(Error::SkvCrs));
    let identity = ContentIdentity {
        sha256: "a".repeat(64),
        byte_length: 500,
        policy: VerificationPolicy::Verify,
        etag: Some("\"x\"".to_owned()),
    };
    let pinned = SourceSpec { identity: Some(identity), ..spec() };
    assert_eq!(check_object(&pinned, &h, 500, Some("\"x\"")), Ok(()));
    assert_eq!(check_object(&pinned, &h, 500, Some("\"y\"")), Err(Error::SkvEtag));
    assert_eq!(check_object(&pinned, &h, 501, None), Err(Error::SkvIdentity));
    assert_eq!(band_mapping(&spec(), 2), Ok(vec![0, 1]));
    let swapped = SourceSpec { bands: Some(vec![1, 0]), ..spec() };
    assert_eq!(band_mapping(&swapped, 2), Ok(vec![1, 0]));
    let twice = SourceSpec { bands: Some(vec![1, 1]), ..spec() };
    assert_eq!(band_mapping(&twice, 2), Err(Error::SkvMapping));
    assert!(digest_matches("ab", "AB") && !digest_matches("ab", "ac"));
    assert_eq!((scan_step(100, 90, 64), scan_step(100, 0, 64)), (10, 64));
}

#[test]
fn a_window_lies_in_the_grid_and_names_each_band_once() {
    let check = |x: usize, w: usize, bands: &[usize]| validate_window(100, 70, 2, x, 0, w, 70, bands);
    assert_eq!(check(0, 100, &[1, 0]), Ok(7000));
    assert_eq!(check(1, 100, &[0]), Err(Error::SkvWindow));
    assert_eq!(check(usize::MAX, 100, &[0]), Err(Error::SkvWindow));
    assert_eq!(check(0, 0, &[0]), Err(Error::SkvWindow));
    assert_eq!(check(0, 1, &[]), Err(Error::SkvBands));
    assert_eq!(check(0, 1, &[0, 0]), Err(Error::SkvBands));
    assert_eq!(check(0, 1, &[2]), Err(Error::SkvBands));
    let region = window_region([64, 0, 100, 64], [60, 10, 20, 5]);
    assert_eq!(region.source, [0, 10, 16, 15]);
    assert_eq!(region.target, [4, 0]);
    assert_eq!(region.output_shape, [20, 5]);
}

#[test]
fn a_build_is_admitted_before_it_writes() {
    let h = header("row_group_v1");
    assert_eq!(physical_groups(&h, 4), vec![(0, 2)]);
    assert_eq!(physical_groups(&h, 1), vec![(0, 2)]);
    assert_eq!(physical_groups(&header("band"), 1), vec![(0, 1), (1, 1)]);
    assert_eq!(physical_groups(&header("band"), 4), vec![(0, 2)]);
    let source = SkvBounds { scalars: vec![RawScalarType::UInt16; 2] };
    let working = working_bound(&source, &h, &NO).unwrap();
    assert!(working >= 32 << 20);
    assert_eq!(
        working_bound(&source, &h, &Fixed { requested: true }),
        Err(Error::Cancelled)
    );
    let options = CompileOptions { chunk_edge: 64, working_bytes: working, ..CompileOptions::default() };
    assert_eq!(check_build(&h, &options, working), Ok(()));
    assert_eq!(check_build(&h, &options, working + 1), Err(Error::WorkingBudget));
    let small = CompileOptions { max_output_bytes: h.data_offset(), ..options };
    assert_eq!(check_build(&h, &small, working), Err(Error::DirectoryOutput));
}

#[test]
fn an_audit_digests_the_directory_in_order() {
    let mut h = header("row_group_v1");
    assert!(needs_packet(&h, 1, None) && !needs_packet(&h, 1, Some(0)));
    assert!(needs_packet(&h, 2, Some(0)));
    let page = make_page(10, 0, &vec![0; 1280]);
    let mut audit = Audit::new();
    assert_eq!(audit.page(10, &page), Ok(()));
    assert_eq!(audit.directory_matches(&h), Err(Error::AuditDirectory));
    h.directory_digest = blake3::hash(&page).to_hex().to_string();
    assert_eq!(audit.directory_matches(&h), Ok(()));
    assert_eq!(audit.directory_digest(), h.directory_digest);
    assert_eq!((audit.next_page(), audit.verified_states()), (1, 0));
    assert_eq!(verification_limit(&h, false, 5, 77), Ok(77));
    assert_eq!(verification_limit(&h, true, 5, 77), Ok(5 + 10 * 81 + 1));
    assert_eq!(verification_limit(&h, true, 5, 9999), Ok(9999));
    assert_eq!(verification_limit(&h, true, usize::MAX, 0), Err(Error::AuditBudget));
}

#[test]
fn a_virtual_file_counts_whole_items() {
    assert_eq!(whence_of(2), Some(Whence::End));
    assert_eq!(whence_of(3), None);
    let mut handle = Handle::open();
    assert_eq!(handle.advance(10, 12, 4), 2);
    assert_eq!((handle.position, handle.eof), (10, true));
    assert!(is_spaced(&[(0, 5), (5, 1)]) && !is_spaced(&[(0, 6), (5, 1)]));
    assert!(!is_spaced(&[(u64::MAX, 6), (5, 1)]));
}

#[test]
fn ranges_of_a_request_are_prepared_in_batches() {
    assert!(accepts_ranges(0) && accepts_ranges(4096));
    assert!(!accepts_ranges(-1) && !accepts_ranges(4097));
    assert_eq!(prepared_batch(0, 300), Some((0, 128)));
    assert_eq!(prepared_batch(1, 300), None);
    assert_eq!(prepared_batch(256, 300), Some((256, 300)));
}

#[test]
fn a_registered_source_begins_and_ends_its_queries() {
    let mut registry = Registry::new();
    let remote = Remote { length: 1000u64, max_range_bytes: 100, metrics: 1u8, identity: 2u8 };
    let source = Registration::new(&mut registry, remote, 0).unwrap();
    assert!(source.begin_query_budget(|| Ok(())).is_ok());
    assert!(source.begin_verified_query(true, |renew| if renew { Ok(()) } else { Err(String::new()) }).is_ok());
    assert!(matches!(
        source.begin_verified_query(false, |renew| if renew { Ok(()) } else { Err("busy".to_owned()) }),
        Err(RemoteError::Transport(text)) if text == "busy"
    ));
    assert!(matches!(
        source.end_verified_query(|| Err("late".to_owned())),
        Err(RemoteError::Transport(text)) if text == "late"
    ));
}
