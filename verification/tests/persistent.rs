use skarve::error::Error;
use skarve::model::Grid;
use skarve::persistent::{
    checksum_page, decode_header, encode_header, verify_page, BoundarySource, Header, SourceIdentity,
    HEADER,
};
use skarve::persistent_build::{check_lengths, check_request, plan_build, tile_read, Block};
use skarve::persistent_index::{check_boundary, check_original, check_pair, PersistedIndex};
use skarve::persistent_page::{
    parent_state, part_state, raw_page, read_cell, read_state, states_page, validated_state,
    BandState, Part, TileBand,
};

fn header() -> Header {
    Header {
        version: 1,
        kind: "summaries".to_owned(),
        numerical_contract: "native_grid_planar_v1".to_owned(),
        algorithm_version: "hierarchy_tiles_v1".to_owned(),
        grid: Grid {
            width: 17,
            height: 19,
            transform_bits: [
                0f64.to_bits(),
                1f64.to_bits(),
                0f64.to_bits(),
                19f64.to_bits(),
                0f64.to_bits(),
                (-1f64).to_bits(),
            ],
            crs: "LOCAL".to_owned(),
        },
        source_id: "fixture".to_owned(),
        source_metadata: "{}".to_owned(),
        build_id: "a".repeat(64),
        units: vec![None],
        tile_edge: 16,
        band_group: 1,
        capabilities: ["sum", "support", "count", "min", "max"]
            .iter()
            .map(|c| (*c).to_owned())
            .collect(),
        byte_order: "little".to_owned(),
        scalar: "normalized_f64_u8_valid".to_owned(),
        boundary_source: BoundarySource::Normalized,
        source_identity: None,
    }
}

#[test]
fn checksum_detects_corruption_and_truncation() {
    let page = checksum_page(vec![0; 80]);
    assert!(verify_page(&page).is_ok());
    let mut bad = page.clone();
    bad[15] = 1;
    assert!(verify_page(&bad).is_err());
    assert!(verify_page(&page[..page.len() - 1]).is_err());
    assert!(decode_header(&vec![0; HEADER]).is_err());
}

#[test]
fn bounded_header_mutations_never_panic_or_allocate_from_untrusted_dimensions() {
    assert_eq!(header().validate(), Ok(()));
    let refused = |change: &dyn Fn(&mut Header), e: Error| {
        let mut h = header();
        change(&mut h);
        assert_eq!(h.validate(), Err(e));
    };
    for version in [0, 3, u32::MAX] {
        refused(&|h| h.version = version, Error::PersistentVersion);
    }
    refused(&|h| h.version = 2, Error::PersistentIdentityVersion);
    refused(&|h| h.kind = "unexpected".to_owned(), Error::PersistentVersion);
    refused(&|h| h.algorithm_version = "unexpected".to_owned(), Error::PersistentAlgorithm);
    for edge in [0, 3, usize::MAX] {
        refused(&|h| h.tile_edge = edge, Error::PersistentTiles);
    }
    for group in [0, 3, usize::MAX] {
        refused(&|h| h.band_group = group, Error::PersistentTiles);
    }
    refused(&|h| h.units.clear(), Error::PersistentBands);
    refused(&|h| h.capabilities.clear(), Error::PersistentLayout);
    refused(&|h| h.byte_order = "unexpected".to_owned(), Error::PersistentLayout);
    refused(&|h| h.scalar = "unexpected".to_owned(), Error::PersistentLayout);
    for side in [0, usize::MAX] {
        refused(&|h| h.grid.width = side, Error::GridShape);
        refused(&|h| h.grid.height = side, Error::GridShape);
    }
    let original = encode_header(b"{}").unwrap();
    assert_eq!(original.len(), HEADER);
    assert_eq!(decode_header(&original).unwrap(), b"{}");
    for n in [0, 1, 7, 8, 15, 16, 31, 32, HEADER - 1] {
        assert!(decode_header(&original[..n]).is_err());
    }
}

#[test]
fn shapes_follow_from_the_header() {
    let h = header();
    assert_eq!((h.tiles_x(), h.tiles_y(), h.tiles(), h.groups()), (2, 2, 4, 1));
    assert_eq!(h.summary_size(), 72);
    assert_eq!(h.raw_size(), 16 * 16 * 9 + 32);
    assert_eq!(h.summary_records(), Ok(5));
    assert_eq!(h.file_length(true), Some((HEADER + 5 * 72) as u64));
    assert_eq!(h.file_length(false), Some((HEADER + 4 * (16 * 16 * 9 + 32)) as u64));
    assert_eq!(h.bounds(3), [16, 16, 17, 19]);
    assert_eq!(h.node_bounds(4), Ok([0, 0, 17, 19]));
    assert!(h.node_bounds(5).is_err());
}

#[test]
fn builds_are_planned_before_anything_is_written() {
    let h = header();
    let plan = plan_build(&h, &vec![], Ok(1 << 20), Err(Error::SourceWindowOverflow)).unwrap();
    assert_eq!(plan.index_bytes, (HEADER + 5 * 72) as u64);
    assert_eq!(plan.raw_bytes, (HEADER + 4 * (16 * 16 * 9 + 32)) as u64);
    assert_eq!(plan.extra, 16 * 16 * 9 + 72 + 2 * HEADER);
    assert_eq!(plan.working_bytes, plan.extra + (1 << 20));
    assert!(!plan.striped);
    let rows = vec![Block { width: 17, height: 4 }];
    assert!(plan_build(&h, &rows, Ok(1 << 20), Ok(1 << 21)).unwrap().striped);
    assert_eq!(
        plan_build(&h, &rows, Ok(1 << 40), Ok(1 << 21)).err(),
        Some(Error::BuilderMemory)
    );
    assert_eq!(check_lengths(plan, plan.index_bytes, plan.raw_bytes), Ok(()));
    assert_eq!(check_lengths(plan, plan.index_bytes, 0), Err(Error::BuildLength));
    assert_eq!(check_request("hierarchy", 16, &h.grid, 6, "band_groups_4"), Ok(4));
    assert_eq!(check_request("flat", 64, &h.grid, 6, "cell_major"), Ok(6));
    assert_eq!(check_request("other", 16, &h.grid, 6, "cell_major"), Err(Error::SummaryBackend));
    assert_eq!(check_request("flat", 17, &h.grid, 6, "cell_major"), Err(Error::BuildTileEdge));
    assert_eq!(check_request("flat", 16, &h.grid, 21, "cell_major"), Err(Error::SourceBands));
    assert_eq!(check_request("flat", 16, &h.grid, 2, "rows"), Err(Error::PreparedLayout));
    let read = tile_read(&h, 3, false);
    assert_eq!((read.y, read.height, read.part.width), (16, 3, 1));
}

#[test]
fn states_and_cells_read_back() {
    let states = vec![
        BandState {
            high: 3f64.to_bits(),
            low: 0,
            count: 2,
            min: 1f64.to_bits(),
            max: 2f64.to_bits(),
        },
        BandState { high: 0, low: 0, count: 0, min: 0, max: 0 },
    ];
    let page = checksum_page(states_page(&states));
    let body = verify_page(&page).unwrap();
    assert_eq!(read_state(body, 0), states[0]);
    assert_eq!(read_state(body, 1), states[1]);
    assert_eq!(validated_state(states[0], 4, true), Ok(states[0]));
    assert_eq!(validated_state(states[0], 1, true), Err(Error::SummaryState));
    assert_eq!(validated_state(states[0], 4, false), Err(Error::SummaryMean));
    let empty = validated_state(states[1], 4, false).unwrap();
    assert_eq!(f64::from_bits(empty.min), f64::INFINITY);
    assert_eq!(
        validated_state(BandState { high: 1, ..states[1] }, 4, false),
        Err(Error::EmptySummary)
    );
}

#[test]
fn a_parent_merges_its_children() {
    let part = Part { stride: 4, column: 1, width: 2, height: 2 };
    let values: Vec<u64> = (0..8).map(|v| (v as f64 - 3.).to_bits()).collect();
    let mut valid = vec![true; 8];
    valid[1] = false;
    // Cells 1, 2, 5 and 6, of which the first is not valid.
    let state = part_state(&values, &valid, part, 4f64.to_bits(), 0);
    assert_eq!(state.count, 3);
    assert_eq!(f64::from_bits(state.min), -1.);
    assert_eq!(f64::from_bits(state.max), 3.);
    let other = BandState { min: (-9f64).to_bits(), max: 0f64.to_bits(), ..state };
    let parent = parent_state(&vec![state, other], 8f64.to_bits(), 0).unwrap();
    assert_eq!(parent.count, 6);
    assert_eq!(f64::from_bits(parent.min), -9.);
    assert_eq!(f64::from_bits(parent.max), 3.);
    let full = BandState { count: u64::MAX, ..state };
    assert_eq!(parent_state(&vec![full, state], 0, 0), Err(Error::CountOverflow));
}

#[test]
fn raw_pages_hold_each_cell_of_each_band() {
    let bands = vec![
        TileBand {
            values: (0..4).map(|v| (v as f64).to_bits()).collect(),
            valid: vec![true, false, true, true],
        },
    ];
    let part = Part { stride: 2, column: 0, width: 2, height: 2 };
    let page = checksum_page(raw_page(&bands, part, 16, 1, 0));
    assert_eq!(page.len(), 16 * 16 * 9 + 32);
    let body = verify_page(&page).unwrap();
    assert_eq!(read_cell(body, 0), Ok((0f64.to_bits(), true)));
    assert_eq!(read_cell(body, 1).unwrap().1, false);
    assert_eq!(read_cell(body, 16), Ok((2f64.to_bits(), true)));
    assert_eq!(read_cell(body, 17), Ok((3f64.to_bits(), true)));
    assert_eq!(read_cell(body, 18).unwrap().1, false);
}

#[test]
fn a_handle_reads_records_until_a_failure_invalidates_it() {
    let h = header();
    let length = h.file_length(true).unwrap();
    assert_eq!(
        PersistedIndex::open(header(), length, &None, 1000).err(),
        Some(Error::IndexMemory)
    );
    assert_eq!(
        PersistedIndex::open(header(), length + 1, &None, 1 << 20).err(),
        Some(Error::TruncatedIndex)
    );
    assert_eq!(
        PersistedIndex::open(header(), length, &Some("b".repeat(64)), 1 << 20).err(),
        Some(Error::BuildMismatch)
    );
    let mut index = PersistedIndex::open(header(), length, &Some("a".repeat(64)), 1 << 20).unwrap();
    let read = index.locate(3).unwrap();
    assert_eq!((read.offset, read.length, read.cells), ((HEADER + 3 * 72) as u64, 72, 3));
    assert_eq!(index.locate(5).err(), Some(Error::SummaryRecord));
    let states = vec![
        BandState {
            high: 5f64.to_bits(),
            low: 0,
            count: 3,
            min: 1f64.to_bits(),
            max: 2f64.to_bits(),
        },
    ];
    let page = checksum_page(states_page(&states));
    assert_eq!(index.read_summary(3, &page, &[true]).unwrap(), states);
    assert_eq!(index.trace.index_reads, 2);
    assert_eq!(index.read_summary(3, &page, &[false]), Err(Error::SummaryMean));
    let mut corrupt = page.clone();
    corrupt[0] ^= 1;
    assert_eq!(index.read_summary(3, &corrupt, &[true]), Err(Error::PageChecksum));
    assert_eq!(index.read_leaf_summary(4, &page, &[true]), Err(Error::LeafTile));
    assert_eq!(index.check_retained(), Err(Error::RetainedBoundary));
    assert_eq!(index.check_usable(), Ok(()));
    index.settle(false);
    assert_eq!(index.check_usable(), Ok(()));
    index.settle(true);
    index.settle(false);
    assert_eq!(index.check_usable(), Err(Error::Invalidated));
}

#[test]
fn an_index_is_tied_to_its_source_and_to_its_raw_pages() {
    let h = header();
    assert_eq!(check_original(&h, "fixture", "{}", &None), Ok(()));
    assert_eq!(check_original(&h, "other", "{}", &None), Err(Error::SourceMismatch));
    assert_eq!(
        check_boundary(BoundarySource::Original, false, false, true),
        Err(Error::MissingBoundaryReader)
    );
    assert_eq!(
        check_boundary(BoundarySource::Normalized, false, true, true),
        Err(Error::UnusedBoundaryReader)
    );
    assert_eq!(
        check_boundary(BoundarySource::Normalized, true, false, false),
        Err(Error::StaleIndex)
    );
    assert_eq!(check_boundary(BoundarySource::Original, true, false, true), Ok(()));
    let mut raw = header();
    raw.kind = "raw".to_owned();
    let length = raw.file_length(false).unwrap();
    assert_eq!(check_pair(&h, &raw, length), Ok(()));
    assert_eq!(check_pair(&h, &raw, length - 1), Err(Error::RawPairMismatch));
    assert_eq!(check_pair(&h, &header(), length), Err(Error::RawPairMismatch));
    raw.source_metadata = "{\"changed\":true}".to_owned();
    assert_eq!(check_pair(&h, &raw, length), Err(Error::RawProvenance));
    raw.source_id = "other".to_owned();
    assert_eq!(check_pair(&h, &raw, length), Err(Error::RawPairMismatch));
}

#[test]
fn an_index_serves_the_source_that_it_was_built_from() {
    let length = header().file_length(true).unwrap();
    let index = PersistedIndex::open(header(), length, &None, 1 << 20).unwrap();
    assert_eq!(index.verify_source_metadata("fixture", "{}", &None), Ok(()));
    assert_eq!(
        index.verify_source_metadata("other", "{}", &None),
        Err(Error::SourceMismatch)
    );
    assert_eq!(
        index.verify_source_metadata("fixture", "[]", &None),
        Err(Error::SourceMismatch)
    );
    let identity = Some(SourceIdentity { text: "{}".to_owned(), object: true });
    assert_eq!(
        index.verify_source_metadata("fixture", "{}", &identity),
        Err(Error::SourceMismatch)
    );
}
