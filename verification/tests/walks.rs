use sha2::Digest;
use skarve::cancel::Fixed;
use skarve::content::{local_signature, ContentScan};
use skarve::error::Error;
use skarve::layout::SummaryLayout;
use skarve::model::Grid;
use skarve::persistent::{BoundarySource, Header, SourceIdentity};
use skarve::persistent_build::{build_id, build_step, new_header, BuildStep, NewIndex};
use skarve::persistent_joint::{node_reads, ForestNode, PlanRange};
use skarve::persistent_page::{band_cells, part_state, raw_page, BandState, Part, TileBand};
use skarve::persistent_query::{boundary_step, QueryOptions};
use skarve::persistent_records::parent_record;
use skarve::persistent_visit::{drain_ranges, Outcome, Turn, Visit};
use skarve::persistent_walk::{FlatTiles, Relation, Walk};
use skarve::skv_build::{compile_header, settle_summaries, CompileSource};
use skarve::skv_header::CompileOptions;
use skarve::skv_source::{root_digest, serving_source_id};
use skarve::source::{
    ContentIdentity, RawBandMetadata, RawRasterMetadata, RawScalarType, VerificationPolicy,
};

const NO: Fixed = Fixed { requested: false };

fn grid() -> Grid {
    Grid {
        width: 17,
        height: 19,
        transform_bits: [0f64, 1., 0., 19., 0., -1.].map(f64::to_bits),
        crs: "LOCAL".to_owned(),
    }
}

fn query(forbidden: Vec<usize>) -> QueryOptions {
    QueryOptions {
        joint_planner: None,
        index_path: "i".to_owned(),
        raw_path: "r".to_owned(),
        source_path: None,
        expected_build_id: None,
        read_memory_bytes: 1 << 20,
        summary_page_bytes: None,
        coalesce_raw: true,
        order_summaries: true,
        forbidden_raw_tiles: forbidden,
        force_direct: false,
        hierarchy: None,
    }
}

fn layout() -> SummaryLayout {
    SummaryLayout::new(17, 19, 16, false).unwrap()
}

fn new_index(identity: Option<SourceIdentity>) -> NewIndex {
    NewIndex {
        grid: grid(),
        source_id: "fixture".to_owned(),
        source_metadata: "{}".to_owned(),
        build_id: build_id("fixture", 12, 34),
        units: vec![None, Some("m".to_owned())],
        source_identity: identity,
    }
}

fn built(boundary: BoundarySource) -> Header {
    new_header(new_index(None), "hierarchy", 16, "band_major", boundary).unwrap()
}

/// Walk with the given answers of each node, and what came of it.
fn walked(forbidden: Vec<usize>, two_phase: bool, cells: [usize; 4]) -> (Vec<Turn>, Vec<usize>, Result<(), Error>) {
    let q = query(forbidden);
    let walk = Walk::from_root(layout(), 17, 19, false);
    let mut visit = Visit::from_root(walk, &q, two_phase, 10);
    let (mut turns, mut read) = (Vec::new(), Vec::new());
    loop {
        let turn = visit.turn();
        turns.push(turn);
        match turn {
            Turn::Ask(node) => {
                let relation = match node {
                    4 => Relation::Boundary,
                    1 | 3 => Relation::Inside,
                    0 => Relation::Boundary,
                    _ => Relation::Outside,
                };
                match visit.answer(relation).unwrap() {
                    Outcome::Cells => match visit.cells(&q, cells[node]) {
                        Ok(true) => read.push(node),
                        Ok(false) => {}
                        Err(e) => return (turns, read, Err(e)),
                    },
                    Outcome::Take => assert!(!two_phase),
                    Outcome::PutOff => assert!(two_phase),
                    _ => {}
                }
            }
            Turn::End => return (turns, read, Ok(())),
            _ => {}
        }
    }
}

#[test]
fn a_walk_settles_every_tile_once() {
    let (turns, read, end) = walked(Vec::new(), false, [5, 0, 0, 0]);
    assert_eq!(end, Ok(()));
    let ask: Vec<Turn> = [4, 0, 1, 2, 3].map(Turn::Ask).to_vec();
    assert_eq!(turns[..5], ask[..]);
    assert_eq!(turns[5..], [Turn::End]);
    assert_eq!(read, vec![0]);
}

#[test]
fn summaries_that_are_put_off_come_in_the_order_of_the_file() {
    let (turns, read, end) = walked(Vec::new(), true, [0, 0, 0, 0]);
    assert_eq!(end, Ok(()));
    assert_eq!(turns[5..], [Turn::Drain, Turn::Take(1), Turn::Take(3), Turn::End]);
    assert_eq!(read, Vec::<usize>::new());
    assert_eq!(drain_ranges(&vec![1, 3], 0, 4, &NO), Ok(Vec::new()));
    assert!(!drain_ranges(&vec![1, 3], 4096, 4, &NO).unwrap().is_empty());
    assert_eq!(drain_ranges(&vec![3, 1], 4096, 4, &NO), Err(Error::ScheduleOrder));
    assert_eq!(drain_ranges(&vec![1, 3], 4096, 0, &NO), Err(Error::ScheduleBound));
    let q = query(Vec::new());
    let mut full = Visit::from_root(Walk::from_root(layout(), 17, 19, false), &q, true, 0);
    assert_eq!(full.turn(), Turn::Ask(4));
    assert_eq!(full.answer(Relation::Inside), Err(Error::ScheduleCapacity));
}

#[test]
fn a_forbidden_tile_is_refused_before_it_is_read() {
    let (_, read, end) = walked(vec![0], true, [5, 0, 0, 0]);
    assert_eq!((read.len(), end), (0, Err(Error::ForbiddenRead)));
    // Nothing of it is touched, so nothing is refused.
    let (_, _, end) = walked(vec![0], true, [0, 0, 0, 0]);
    assert_eq!(end, Ok(()));
    assert_eq!(boundary_step(&query(vec![7]), 7, 1), Err(Error::ForbiddenRead));
    assert_eq!(boundary_step(&query(vec![7]), 7, 0), Ok(false));
    assert_eq!(boundary_step(&query(vec![7]), 8, 1), Ok(true));
}

#[test]
fn a_window_is_walked_tile_by_tile() {
    let q = query(Vec::new());
    let flat = SummaryLayout::new(17, 19, 16, true).unwrap();
    let mut walk = Walk::from_root(flat, 17, 19, true);
    walk.pending.clear();
    walk.eligible = false;
    let mut visit = Visit::over_tiles(walk, FlatTiles::new(0, 1, 2, 2, 2), &q, false, 0);
    assert_eq!(visit.turn(), Turn::Ask(2));
    assert_eq!(visit.answer(Relation::Inside), Ok(Outcome::Cells));
    assert_eq!(visit.cells(&q, 3), Ok(true));
    assert_eq!(visit.turn(), Turn::Ask(3));
    assert_eq!(visit.answer(Relation::Outside), Ok(Outcome::Skip));
    assert_eq!(visit.turn(), Turn::End);
}

#[test]
fn every_record_sums_its_rectangle_up() {
    // One valid cell in each tile, with the number of the tile.
    let tile = |value: f64| {
        let part = Part { stride: 2, column: 0, width: 2, height: 1 };
        part_state(&vec![value.to_bits(), 0], &vec![true, false], part, value.to_bits(), 0)
    };
    let lower: Vec<BandState> = [3., -1., 7., 5.].map(tile).to_vec();
    let root = parent_record(&layout(), 17, 19, 4, &lower, 14f64.to_bits(), 0, false).unwrap();
    assert_eq!(root.count, 4);
    assert_eq!((f64::from_bits(root.min), f64::from_bits(root.max)), (-1., 7.));
    let empty = BandState { high: 0, low: 0, count: 0, min: 0, max: 0 };
    let none = parent_record(&layout(), 17, 19, 4, &vec![empty; 4], 0, 0, false).unwrap();
    assert_eq!((none.count, none.min, none.max), (0, 0, 0));
    let full = BandState { count: u64::MAX, ..lower[0] };
    assert_eq!(
        parent_record(&layout(), 17, 19, 4, &vec![full, lower[1], lower[2], lower[3]], 0, 0, false),
        Err(Error::CountOverflow)
    );
}

#[test]
fn cells_of_a_band_come_from_their_slots() {
    let band = |v: f64| TileBand {
        values: vec![v.to_bits(), (v + 1.).to_bits()],
        valid: vec![true, v > 0.],
    };
    let part = Part { stride: 2, column: 0, width: 2, height: 1 };
    let mut body = raw_page(&vec![band(0.), band(10.)], part, 16, 2, 0);
    let second = band_cells(&body, 16, 2, 1, &NO).unwrap();
    assert_eq!(second.values.len(), 256);
    assert_eq!(f64::from_bits(second.values[0]), 10.);
    assert_eq!(f64::from_bits(second.values[1]), 11.);
    assert_eq!(second.valid[..3], [true, true, false]);
    let first = band_cells(&body, 16, 2, 0, &NO).unwrap();
    assert_eq!(first.valid[..3], [true, false, false]);
    body[9 + 8] = 2;
    assert_eq!(band_cells(&body, 16, 2, 1, &NO).err(), Some(Error::RawPageValue));
    assert!(band_cells(&body, 16, 2, 0, &NO).is_ok());
    assert_eq!(
        band_cells(&body, 16, 2, 0, &Fixed { requested: true }).err(),
        Some(Error::Cancelled)
    );
}

#[test]
fn a_new_index_says_what_it_was_built_from() {
    let h = built(BoundarySource::Original);
    assert_eq!((h.version, h.kind.as_str()), (1, "summaries"));
    assert_eq!(h.algorithm_version, "hierarchy_tiles_v1");
    assert_eq!((h.tile_edge, h.band_group), (16, 1));
    assert_eq!(h.build_id, blake3::hash(b"fixture:12:34").to_hex().to_string());
    let object = || Some(SourceIdentity { text: "{}".to_owned(), object: true });
    let second =
        new_header(new_index(object()), "flat", 64, "cell_major", BoundarySource::Normalized).unwrap();
    assert_eq!((second.version, second.band_group), (2, 2));
    assert_eq!(second.algorithm_version, "flat_tiles_v1");
    let refused = |backend: &str, edge: usize, layout: &str| {
        new_header(new_index(None), backend, edge, layout, BoundarySource::Original).err()
    };
    assert_eq!(refused("other", 16, "band_major"), Some(Error::SummaryBackend));
    assert_eq!(refused("flat", 17, "band_major"), Some(Error::BuildTileEdge));
    assert_eq!(refused("flat", 16, "other"), Some(Error::PreparedLayout));
    let short = NewIndex { build_id: "x".to_owned(), ..new_index(None) };
    assert_eq!(
        new_header(short, "flat", 16, "band_major", BoundarySource::Original).err(),
        Some(Error::PersistentIdentity)
    );
}

#[test]
fn records_are_made_from_those_before_them() {
    let h = built(BoundarySource::Normalized);
    assert!(matches!(
        build_step(&h, 3, false),
        Ok(BuildStep::Tile(t)) if (t.x, t.y, t.width, t.height) == (16, 16, 1, 3)
    ));
    assert!(matches!(
        build_step(&h, 4, false),
        Ok(BuildStep::Parent(children)) if children == vec![0, 1, 2, 3]
    ));
}

#[test]
fn a_node_asks_for_its_pages() {
    let index = built(BoundarySource::Normalized);
    let mut raw = built(BoundarySource::Normalized);
    raw.kind = "raw".to_owned();
    let node = |certified: bool, raw_cells: Option<usize>| ForestNode {
        record: 1,
        certified,
        children: Vec::new(),
        raw_cells,
        reduction_ns: None,
    };
    assert_eq!(
        node_reads(&node(true, None), &index, &raw, &vec![0, 1]),
        vec![PlanRange { raw: false, offset: 65536 + 112, len: 112 }]
    );
    let page = 16 * 16 * 9 + 32;
    assert_eq!(
        node_reads(&node(false, Some(3)), &index, &raw, &vec![0, 1]),
        vec![
            PlanRange { raw: true, offset: 65536 + 2 * page, len: page },
            PlanRange { raw: true, offset: 65536 + 3 * page, len: page },
        ]
    );
    assert_eq!(node_reads(&node(false, None), &index, &raw, &vec![0]), Vec::new());
}

#[test]
fn content_is_digested_piece_by_piece() {
    let identity = ContentIdentity {
        // The digest of "abc".
        sha256: "BA7816BF8F01CFEA414140DE5DAE2223B00361A396177A9CB410FF61F20015AD".to_owned(),
        byte_length: 3,
        policy: VerificationPolicy::Verify,
        etag: None,
    };
    let scan = |pieces: &[&[u8]]| {
        let mut scan = ContentScan::new();
        for piece in pieces {
            scan.take(piece);
        }
        scan
    };
    assert_eq!(scan(&[b"a", b"", b"bc"]).scanned(), 3);
    assert_eq!(scan(&[b"a", b"bc"]).sha256(), identity.sha256.to_ascii_lowercase());
    assert_eq!(scan(&[b"ab", b"c"]).check(&identity, false, true), Ok(()));
    assert_eq!(scan(&[b"ab", b"c"]).check(&identity, false, false), Err(Error::SourceChanged));
    assert_eq!(scan(&[b"ab"]).check(&identity, false, true), Err(Error::LocalDigest));
    assert_eq!(scan(&[b"ab"]).check(&identity, true, true), Err(Error::RemoteDigest));
    assert_eq!(scan(&[b"abc"]).check_object(&identity), Ok(()));
    assert_eq!(scan(&[b"abd"]).check_object(&identity), Err(Error::SkvContent));
}

#[test]
fn a_signature_covers_where_and_when_a_file_was() {
    let mut digest = sha2::Sha256::new();
    digest.update(b"/a/b");
    digest.update(7u64.to_le_bytes());
    digest.update(b"now");
    digest.update(1u64.to_le_bytes());
    digest.update(2u64.to_le_bytes());
    digest.update((-3i64).to_le_bytes());
    digest.update(4i64.to_le_bytes());
    let expected: String = digest.finalize().iter().map(|b| format!("{b:02x}")).collect();
    let signed = local_signature(b"/a/b", 7, "now", 1, 2, -3, 4);
    assert_eq!(signed, format!("skv-local-stat-sha256:{expected}"));
    assert_ne!(signed, local_signature(b"/a/b", 7, "now", 1, 2, -3, 5));
}

#[test]
fn a_serving_view_is_known_by_its_bootstrap_bands_and_content() {
    let root = root_digest(b"bootstrap");
    assert_eq!(root, blake3::hash(b"bootstrap").to_hex().to_string());
    let known = |text: &str| format!("skv-v0-source:{}", blake3::hash(text.as_bytes()).to_hex());
    assert_eq!(
        serving_source_id(b"bootstrap", &[2, 0], &None, "g\"1", 9),
        known(&format!(
            "{{\"band_mapping\":[2,0],\"bootstrap_blake3\":\"{root}\",\"serving_identity\":{{\"byte_length\":9,\"generation\":\"g\\\"1\"}}}}"
        ))
    );
    let identity = Some(ContentIdentity {
        sha256: "AB".repeat(32),
        byte_length: 9,
        policy: VerificationPolicy::TrustedManifest,
        etag: None,
    });
    assert_eq!(
        serving_source_id(b"bootstrap", &[1], &identity, "ignored", 9),
        known(&format!(
            "{{\"band_mapping\":[1],\"bootstrap_blake3\":\"{root}\",\"serving_identity\":{{\"byte_length\":9,\"content_sha256\":\"{}\"}}}}",
            "ab".repeat(32)
        ))
    );
}

fn compiled(bands: usize) -> CompileSource {
    CompileSource {
        grid: grid(),
        raw_metadata: RawRasterMetadata {
            bands: vec![RawBandMetadata {
                scalar_type: RawScalarType::Int16,
                nodata_f64_bits: None,
                scale_f64_bits: 1f64.to_bits(),
                offset_f64_bits: 0,
                unit: None,
                mask_flags: 1,
                original_band_index: 0,
                description: String::new(),
            }],
            pixel_convention: "Area".to_owned(),
            source_band_count: 1,
            source_overview: None,
        },
        bands,
        source_id: "s".to_owned(),
        identity: None,
        build_id: "a".repeat(64),
    }
}

#[test]
fn an_object_begins_with_what_its_options_say() {
    let options = CompileOptions { chunk_edge: 64, ..CompileOptions::default() };
    let mut h = compile_header(compiled(1), &options).unwrap();
    assert_eq!((h.version, h.chunk_edge, h.summaries), (0, 64, true));
    assert_eq!(h.logical_digest, "0".repeat(64));
    assert_eq!(h.hierarchy.levels, vec![(1, 1, 0)]);
    assert_eq!(compile_header(compiled(2), &options).err(), Some(Error::MetadataBands));
    let odd = CompileOptions { chunk_edge: 65, ..CompileOptions::default() };
    assert_eq!(compile_header(compiled(1), &odd).err(), Some(Error::ChunkEdge));
    let long = CompileSource { build_id: "x".to_owned(), ..compiled(1) };
    assert!(compile_header(long, &options).is_err());
    settle_summaries(&mut h, true, true);
    assert_eq!((h.summaries, &h.summary_disabled_reason), (true, &None));
    settle_summaries(&mut h, false, true);
    assert_eq!((h.summaries, &h.summary_disabled_reason), (false, &None));
    settle_summaries(&mut h, true, false);
    assert!(!h.summaries);
    assert_eq!(
        h.summary_disabled_reason.as_deref(),
        Some("nonfinite_or_unrepresentable_compensated_state")
    );
}
