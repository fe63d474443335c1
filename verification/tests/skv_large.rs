use skarve::bytes::{put_u32, put_u64, u64_at};
use skarve::cancel::Fixed;
use skarve::error::Error;
use skarve::layout::SummaryLayout;
use skarve::model::Grid;
use skarve::skv_header::{
    Header, HierarchyDescription, BOOTSTRAP, MAX_LEAF_RECORDS, PAGE, RECORD, RECORDS_PER_PAGE,
};
use skarve::skv_reader::{Lookup, Reader, DIRECTORY_RANGE_PAGES};
use skarve::skv_source::{retained_capacity, RetainedSizes, NATIVE_SOURCE_RETAINED_BYTES};
use skarve::source::{RawBandMetadata, RawRasterMetadata, RawScalarType};

const NO: Fixed = Fixed { requested: false };

fn sizes() -> RetainedSizes {
    RetainedSizes { page: 32, interval: 24, read: 40, range: 16 }
}

fn levels(width: usize, height: usize, edge: usize) -> HierarchyDescription {
    HierarchyDescription {
        tile_edge: edge,
        levels: SummaryLayout::new(width, height, edge, false).unwrap().levels,
    }
}

fn header(width: usize, height: usize, band_group: usize) -> Header {
    Header {
        version: 0,
        grid: Grid { width, height, transform_bits: [0; 6], crs: "LOCAL".to_owned() },
        raw_metadata: RawRasterMetadata {
            bands: (0..36)
                .map(|index| RawBandMetadata {
                    scalar_type: RawScalarType::Float32,
                    nodata_f64_bits: None,
                    scale_f64_bits: 1f64.to_bits(),
                    offset_f64_bits: 0,
                    unit: None,
                    mask_flags: 0,
                    original_band_index: index,
                    description: String::new(),
                })
                .collect(),
            pixel_convention: "Area".to_owned(),
            source_band_count: 36,
            source_overview: None,
        },
        chunk_edge: 256,
        band_group,
        payload_layout: "row_group_v1".to_owned(),
        codec: "deflate".to_owned(),
        predictor: "none".to_owned(),
        compression_level: 3,
        summaries: false,
        hierarchy: levels(width, height, 256),
        numerical_schema: "native_grid_planar_compensated_v1".to_owned(),
        build_id: "a".repeat(64),
        original_source_id: "source".to_owned(),
        original_identity: None,
        logical_digest: "b".repeat(64),
        directory_digest: "c".repeat(64),
        summary_disabled_reason: None,
    }
}

#[test]
fn large_grid_capacity_is_bounded_and_preserves_existing_header_layout() {
    let mut large = header(17643, 11708, 36);
    large.validate().unwrap();
    assert_eq!(large.leaves() * large.bands(), 114264);
    assert_eq!(large.groups_per_tile(), 4);
    assert_eq!(large.band_group_bounds(0).unwrap(), (0, 10));
    let length = large.data_offset() + 1;
    assert!(retained_capacity(&large, 4 << 20, sizes()).unwrap() <= NATIVE_SOURCE_RETAINED_BYTES);
    assert_eq!(Reader::new(header(17643, 11708, 36), length, 8).intervals.capacity, 12696);
    large.payload_layout = "band".to_owned();
    large.validate().unwrap();
    assert!(retained_capacity(&large, 4 << 20, sizes()).unwrap() <= NATIVE_SOURCE_RETAINED_BYTES);
    let mut independent = header(17643, 11708, 36);
    independent.payload_layout = "band".to_owned();
    assert_eq!(Reader::new(independent, length, 8).intervals.capacity, 114264);
    large.chunk_edge = 128;
    large.hierarchy = levels(17643, 11708, 128);
    assert_eq!(large.validate(), Err(Error::SkvLeafBound));
}

#[test]
fn large_header_capacity_has_fixed_retention_and_checked_group_neighbors() {
    let mut large = header(430706, 62971, 10);
    large.validate().unwrap();
    assert_eq!(large.leaves() * large.bands(), 14_904_648);
    assert_eq!(large.data_offset(), 2_560_843_584);
    let last = (large.leaves() - 1) * 36;
    assert_eq!(large.physical_neighbors(0).unwrap(), (None, Some(36)));
    assert_eq!(large.physical_neighbors(last).unwrap(), (Some(last - 36), Some(10)));
    assert_eq!(large.physical_neighbors(10).unwrap(), (Some(last), Some(46)));
    assert_eq!(large.physical_neighbors(last + 30).unwrap(), (Some(last - 6), None));
    assert!(large.physical_neighbors(1).is_err());
    let mut reader = Reader::new(header(430706, 62971, 10), 64u64 << 30, 8);
    assert_eq!(reader.intervals.capacity, MAX_LEAF_RECORDS);
    assert!(retained_capacity(&large, 4 << 20, sizes()).unwrap() <= NATIVE_SOURCE_RETAINED_BYTES);
    // An absent page is never accepted.
    let records = large.records();
    assert!(reader.cache.take_range(records, 0, &vec![0; PAGE], &NO).is_err());
    large.payload_layout = "band".to_owned();
    assert!(large.validate().is_err());
    large.payload_layout = "row_group_v1".to_owned();
    large.grid.width *= 2;
    large.hierarchy = levels(large.grid.width, 62971, 256);
    assert!(large.validate().is_err());
}

/// Only the first directory range is populated: accessed descriptors keep their checks without
/// a scan of the file.
fn sparse_pages(header: &Header, patch: &dyn Fn(usize, &mut Vec<u8>)) -> Vec<u8> {
    let mut bytes = Vec::new();
    for page_id in 0..DIRECTORY_RANGE_PAGES {
        let mut page = vec![0u8; PAGE];
        page[..4].copy_from_slice(b"SKVP");
        page[6..8].copy_from_slice(&(RECORDS_PER_PAGE as u16).to_le_bytes());
        put_u64(&mut page, 8, page_id as u64);
        for local in 0..RECORDS_PER_PAGE {
            let id = page_id * RECORDS_PER_PAGE + local;
            let mut record = vec![0u8; RECORD];
            let (leader, count) = header.canonical_group(id).unwrap();
            put_u64(&mut record, 0, header.data_offset() + (id / 36) as u64);
            put_u32(&mut record, 8, 1);
            put_u32(&mut record, 12, (256 * 256 * 5 * count) as u32);
            put_u64(&mut record, 16, 256 * 256 * 4);
            put_u32(&mut record, 24, 1);
            put_u32(&mut record, 28, 1);
            put_u64(&mut record, 104, id as u64);
            put_u64(&mut record, 112, leader as u64);
            put_u32(&mut record, 120, count as u32);
            patch(id, &mut record);
            let at = 16 + local * RECORD;
            page[at..at + RECORD].copy_from_slice(&record);
        }
        let digest = blake3::hash(&page[..PAGE - 32]);
        page[PAGE - 32..].copy_from_slice(digest.as_bytes());
        bytes.extend_from_slice(&page);
    }
    bytes
}

fn descriptor(reader: &mut Reader, pages: &[u8], id: usize) -> Result<Vec<u8>, Error> {
    match reader.descriptor(id)? {
        Lookup::Record(record) => Ok(record),
        Lookup::Range { first, offset, length } => {
            assert_eq!((first, offset), (0, BOOTSTRAP as u64));
            let records = reader.header.records();
            reader.cache.take_range(records, first, &pages[..length], &NO)?;
            match reader.descriptor(id)? {
                Lookup::Record(record) => Ok(record),
                Lookup::Range { .. } => panic!("a range that was taken"),
            }
        }
    }
}

fn record(reader: &mut Reader, pages: &[u8], id: usize) -> Result<(), Error> {
    let own = descriptor(reader, pages, id)?;
    let needs = reader.needs(id);
    let mut others = Vec::new();
    for other in [needs.leader, needs.previous, needs.next] {
        others.push(match other {
            Some(other) => Some(descriptor(reader, pages, other)?),
            None => None,
        });
    }
    reader.settle(id, &own, others[0].as_deref(), others[1].as_deref(), others[2].as_deref())
}

#[test]
fn large_ordered_descriptors_reject_gaps_aliases_and_nonlocal_overlap() {
    let open = || Reader::new(header(430706, 62971, 10), 64u64 << 30, DIRECTORY_RANGE_PAGES);
    let h = header(430706, 62971, 10);
    let pages = sparse_pages(&h, &|_, _| {});
    let mut source = open();
    record(&mut source, &pages, 0).unwrap();
    record(&mut source, &pages, 1).unwrap();
    record(&mut source, &pages, 36).unwrap();
    assert_eq!(source.intervals.entries.len(), 2);
    let gap = sparse_pages(&h, &|id, r| {
        if id == 36 {
            let offset = u64_at(r, 0) + 1;
            put_u64(r, 0, offset);
        }
    });
    assert_eq!(record(&mut open(), &gap, 0), Err(Error::PayloadOrder));
    let alias = sparse_pages(&h, &|id, r| {
        if id == 1 {
            r[32] = 1;
        }
    });
    assert_eq!(record(&mut open(), &alias, 1), Err(Error::PayloadAlias));
    let nonlocal = sparse_pages(&h, &|id, r| {
        if (3..=5).contains(&(id / 36)) {
            let offset = u64_at(r, 0) - 3;
            put_u64(r, 0, offset);
        }
    });
    let mut source = open();
    record(&mut source, &nonlocal, 36).unwrap();
    // Its immediate neighbors are contiguous, but it aliases a visited non-neighbor.
    assert_eq!(record(&mut source, &nonlocal, 144), Err(Error::PayloadOverlap));
}
