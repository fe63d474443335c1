use skarve::cancel::Fixed;
use skarve::error::Error;
use skarve::model::Grid;
use skarve::skv_audit::Audit;
use skarve::skv_compile::{pack_band, store_band, store_group, Stored};
use skarve::skv_delta::byte_delta;
use skarve::skv_directory::{
    accept_header, decode_header, encode_header, make_page, node_bounds, state_of, validate_page,
    validate_record, SummaryBits,
};
use skarve::skv_header::{
    validate_payload_layout, validate_predictor, CompileOptions, Header, HierarchyDescription,
    BOOTSTRAP, PAGE,
};
use skarve::skv_reader::{Intervals, Lookup, Reader};
use skarve::skv_record::{blank_record, write_state};
use skarve::skv_serve::{decode_packet, serve_queue};
use skarve::skv_summary::{child_records, merge_children, summarize};
use skarve::skv_tiles::{leaf_record, take_payload, window_tiles};
use skarve::skv_window::{sort_by_begin, Pending, Queue};
use skarve::skv_writer::Writer;
use skarve::source::{RawBandMetadata, RawBandWindow, RawRasterMetadata, RawScalarType};
use skarve::layout::SummaryLayout;
use skarve::persistent_page::BandState;

const NO: Fixed = Fixed { requested: false };

fn header(layout: &str, predictor: &str) -> Header {
    let hierarchy = SummaryLayout::new(100, 70, 64, false).unwrap();
    Header {
        version: 0,
        grid: Grid {
            width: 100,
            height: 70,
            transform_bits: [0; 6],
            crs: "LOCAL".to_owned(),
        },
        raw_metadata: RawRasterMetadata {
            bands: (0..2)
                .map(|index| RawBandMetadata {
                    scalar_type: RawScalarType::UInt16,
                    nodata_f64_bits: None,
                    scale_f64_bits: 1f64.to_bits(),
                    offset_f64_bits: 0,
                    unit: None,
                    mask_flags: 0,
                    original_band_index: index,
                    description: String::new(),
                })
                .collect(),
            pixel_convention: "Area".to_owned(),
            source_band_count: 2,
            source_overview: None,
        },
        chunk_edge: 64,
        band_group: 4,
        payload_layout: layout.to_owned(),
        codec: "deflate".to_owned(),
        predictor: predictor.to_owned(),
        compression_level: 3,
        summaries: true,
        hierarchy: HierarchyDescription { tile_edge: 64, levels: hierarchy.levels },
        numerical_schema: "native_grid_planar_compensated_v1".to_owned(),
        build_id: "a".repeat(64),
        original_source_id: "source".to_owned(),
        original_identity: None,
        logical_digest: "b".repeat(64),
        directory_digest: "c".repeat(64),
        summary_disabled_reason: None,
    }
}

fn options() -> CompileOptions {
    CompileOptions { chunk_edge: 64, ..CompileOptions::default() }
}

fn band(width: usize, height: usize, seed: usize) -> RawBandWindow {
    let cells = width * height;
    RawBandWindow {
        samples_le: (0..cells * 2).map(|i| ((i * 31 + seed) % 251) as u8).collect(),
        mask: (0..cells).map(|i| if (i + seed) % 5 == 0 { 0 } else { 255 }).collect(),
    }
}

fn state() -> SummaryBits {
    SummaryBits {
        sum_high: 5f64.to_bits(),
        sum_low: 0,
        count: 3,
        min: 1f64.to_bits(),
        max: 2f64.to_bits(),
    }
}

#[test]
fn headers_count_their_records_pages_and_groups() {
    let h = header("band", "none");
    assert_eq!(h.validate(), Ok(()));
    assert_eq!((h.bands(), h.leaves(), h.records(), h.pages()), (2, 4, 10, 1));
    assert_eq!(h.data_offset(), (BOOTSTRAP + PAGE) as u64);
    assert!(!h.grouped());
    assert_eq!(node_bounds(&h, 3), [64, 64, 100, 70]);
    let g = header("row_group_v1", "none");
    assert_eq!(g.validate(), Ok(()));
    assert!(g.grouped());
    assert_eq!(g.band_group_bounds(1), Ok((0, 2)));
    assert_eq!(g.canonical_group(1), Ok((0, 2)));
    assert_eq!(g.groups_per_tile(), 1);
    let mut wrong = header("band", "none");
    wrong.hierarchy.levels.pop();
    assert_eq!(wrong.validate(), Err(Error::SkvHierarchy));
    let mut unknown = header("columns", "none");
    assert_eq!(unknown.validate(), Err(Error::UnsupportedPayloadLayout));
    unknown.payload_layout = "band".to_owned();
    unknown.predictor = "magic".to_owned();
    assert_eq!(unknown.validate(), Err(Error::UnsupportedPredictor));
    assert!(validate_payload_layout("band").is_ok());
    assert!(validate_predictor("none").is_ok());
    assert_eq!(
        CompileOptions { chunk_edge: 100, ..options() }.validate(),
        Err(Error::ChunkEdge)
    );
    assert_eq!(
        CompileOptions { working_bytes: 1, ..options() }.validate(),
        Err(Error::CompilerMemory)
    );
}

#[test]
fn bootstraps_frame_their_metadata() {
    let h = header("band", "none");
    let metadata = b"{\"version\":0}";
    let bytes = encode_header(&h, metadata, 50_000, &NO).unwrap();
    assert_eq!(bytes.len(), BOOTSTRAP);
    assert_eq!(decode_header(&bytes, 50_000, &NO).unwrap(), metadata);
    assert_eq!(accept_header(&h, &bytes, 50_000), Ok(()));
    assert_eq!(decode_header(&bytes, 50_001, &NO), Err(Error::BootstrapFields));
    let mut corrupt = bytes.clone();
    corrupt[100] ^= 1;
    assert_eq!(decode_header(&corrupt, 50_000, &NO), Err(Error::BootstrapChecksum));
    assert_eq!(decode_header(&bytes[1..], 50_000, &NO), Err(Error::NotSkv));
    let other = header("band", "byte_delta_v1");
    assert_eq!(other.validate(), Ok(()));
    assert_eq!(accept_header(&other, &bytes, 50_000), Err(Error::HeaderDisagreement));
}

#[test]
fn differences_are_undone() {
    let original: Vec<u8> = (0..3 * 2 * 2 + 6).map(|i| (i * 37 % 256) as u8).collect();
    let mut payload = original.clone();
    assert_eq!(byte_delta(&mut payload, 12, 3, 2, 2, false, &NO), Ok(12));
    assert_ne!(payload, original);
    // The first plane of the first row: low bytes as differences to the left.
    assert_eq!(payload[0], original[0]);
    assert_eq!(payload[1], original[2].wrapping_sub(original[0]));
    assert_eq!(byte_delta(&mut payload, 12, 3, 2, 2, true, &NO), Ok(12));
    assert_eq!(payload, original);
    assert_eq!(byte_delta(&mut payload, 12, 0, 2, 2, true, &NO), Err(Error::PredictorShape));
    assert_eq!(byte_delta(&mut payload, 11, 3, 2, 2, true, &NO), Err(Error::PredictorLength));
}

fn read_back(h: &Header, stored: &Stored, records: &[(usize, usize)], length: u64) -> Vec<RawBandWindow> {
    // Leaf 3 covers columns 64 to 99 and rows 64 to 69.
    let window = [66usize, 65, 10, 3];
    let mut output: Vec<RawBandWindow> = records
        .iter()
        .map(|_| RawBandWindow { samples_le: vec![0; 60], mask: vec![0; 30] })
        .collect();
    let members: Vec<Pending> = records
        .iter()
        .enumerate()
        .map(|(out_index, &(band, id))| Pending {
            out_index,
            band,
            id,
            bounds: [64, 64, 100, 70],
            record: stored.records[out_index].clone(),
        })
        .collect();
    let mut queue = Queue::new();
    queue.push(sort_by_begin(members), 1 << 22).unwrap();
    assert_eq!(queue.length, stored.encoded.len());
    serve_queue(h, length, &queue, &stored.encoded, window, &mut output, &NO).unwrap();
    output
}

fn cut(raw: &RawBandWindow) -> RawBandWindow {
    let mut samples_le = Vec::new();
    let mut mask = Vec::new();
    for row in 1..4 {
        for column in 2..12 {
            let cell = row * 36 + column;
            samples_le.extend_from_slice(&raw.samples_le[cell * 2..cell * 2 + 2]);
            mask.push(raw.mask[cell]);
        }
    }
    RawBandWindow { samples_le, mask }
}

#[test]
fn a_stored_band_reads_back() {
    for predictor in ["none", "byte_delta_v1"] {
        let h = header("band", predictor);
        assert_eq!(h.validate(), Ok(()));
        let raw = band(36, 6, 7);
        let payload = pack_band(&raw, 36, 6, 2, predictor != "none", &NO).unwrap();
        let position = h.data_offset();
        let stored =
            store_band(&h, &options(), 3, 1, &payload, Some(state()), position, &NO).unwrap();
        let length = stored.end;
        assert_eq!(length, position + stored.encoded.len() as u64);
        assert_eq!(validate_record(&h, 7, &stored.records[0], length), Ok(Some(state())));
        assert_eq!(state_of(&stored.records[0]), Some(state()));
        assert_eq!(decode_packet(&h, 7, &stored.records[0], &stored.encoded, &NO).unwrap(), payload);
        let mut corrupt = stored.encoded.clone();
        corrupt[0] ^= 1;
        assert_eq!(
            decode_packet(&h, 7, &stored.records[0], &corrupt, &NO),
            Err(Error::PayloadChecksum)
        );
        let output = read_back(&h, &stored, &[(1, 7)], length);
        let expected = cut(&raw);
        assert_eq!(output[0].samples_le, expected.samples_le);
        assert_eq!(output[0].mask, expected.mask);
        let small = CompileOptions { max_output_bytes: position, ..options() };
        assert_eq!(
            store_band(&h, &small, 3, 1, &payload, None, position, &NO).err(),
            Some(Error::OutputBytes)
        );
    }
}

#[test]
fn a_stored_group_reads_back() {
    for predictor in ["none", "byte_delta_v1"] {
        let h = header("row_group_v1", predictor);
        assert_eq!(h.validate(), Ok(()));
        assert!(h.grouped());
        let bands = [band(36, 6, 7), band(36, 6, 90)];
        let payloads: Vec<Vec<u8>> =
            bands.iter().map(|b| pack_band(b, 36, 6, 2, predictor != "none", &NO).unwrap()).collect();
        let states = vec![Some(state()), None];
        let stored = store_group(
            &h,
            &options(),
            3,
            0,
            &payloads,
            &states,
            h.data_offset(),
            &NO,
        )
        .unwrap();
        assert_eq!(stored.records.len(), 2);
        let output = read_back(&h, &stored, &[(0, 6), (1, 7)], stored.end);
        for (out, raw) in output.iter().zip(&bands) {
            let expected = cut(raw);
            assert_eq!(out.samples_le, expected.samples_le);
            assert_eq!(out.mask, expected.mask);
        }
    }
}

#[test]
fn directory_pages_hold_their_records() {
    let h = header("band", "none");
    let mut part = Vec::new();
    for id in 0..10 {
        let mut record = blank_record(id, id < 8);
        if id == 9 {
            write_state(&mut record, &state());
        }
        part.extend_from_slice(&record);
    }
    let page = make_page(10, 0, &part);
    assert_eq!(page.len(), PAGE);
    assert_eq!(validate_page(10, 0, &page), Ok(()));
    assert_eq!(validate_page(9, 0, &page), Err(Error::DirectoryOccupancy));
    let mut corrupt = page.clone();
    corrupt[20] ^= 1;
    assert_eq!(validate_page(10, 0, &corrupt), Err(Error::DirectoryChecksum));
    let mut reader = Reader::new(header("band", "none"), h.data_offset() + 100, 1);
    match reader.descriptor(9).unwrap() {
        Lookup::Range { first, offset, length } => {
            assert_eq!((first, offset, length), (0, BOOTSTRAP as u64, PAGE));
        }
        Lookup::Record(_) => panic!("a page that was not read"),
    }
    reader.cache.take_range(10, 0, &page, &NO).unwrap();
    match reader.descriptor(9).unwrap() {
        Lookup::Record(record) => assert_eq!(state_of(&record), Some(state())),
        Lookup::Range { .. } => panic!("a page that was read"),
    }
    assert_eq!(reader.descriptor(10).err(), Some(Error::RecordIndex));
    let audit = Audit::new();
    assert_eq!((audit.next_page(), audit.verified_states()), (0, 0));
}

#[test]
fn payload_places_do_not_overlap() {
    let mut intervals = Intervals::new(4);
    intervals.visit(100, 200, 1).unwrap();
    intervals.visit(300, 400, 2).unwrap();
    intervals.visit(100, 200, 1).unwrap();
    assert_eq!(intervals.visit(100, 200, 3), Err(Error::PayloadOverlap));
    assert_eq!(intervals.visit(150, 250, 3), Err(Error::PayloadOverlap));
    intervals.visit(200, 300, 3).unwrap();
    assert_eq!(intervals.complete(3, 100, 400), Ok(()));
    assert_eq!(intervals.complete(4, 100, 400), Err(Error::PayloadMissing));
    assert_eq!(intervals.complete(3, 100, 401), Err(Error::PayloadTrailing));
}

#[test]
fn summaries_merge_from_children_alone() {
    let values: Vec<u64> = [4., -2., 9., 1.].iter().map(|v: &f64| v.to_bits()).collect();
    let leaf = summarize(&values, &vec![true, true, false, true], 3f64.to_bits(), 0);
    assert_eq!(leaf.count, 3);
    assert_eq!((f64::from_bits(leaf.min), f64::from_bits(leaf.max)), (-2., 4.));
    let none = summarize(&values, &vec![false; 4], 0, 0);
    assert_eq!(none, BandState { high: 0, low: 0, count: 0, min: 0, max: 0 });
    let children = vec![Some(leaf), Some(BandState { max: 7f64.to_bits(), ..leaf })];
    let parent = merge_children(&children, 6f64.to_bits(), 0).unwrap().unwrap();
    assert_eq!(parent.count, 6);
    assert_eq!((f64::from_bits(parent.min), f64::from_bits(parent.max)), (-2., 7.));
    assert_eq!(merge_children(&vec![Some(leaf), None], 0, 0), Ok(None));
    let layout = SummaryLayout::new(100, 70, 64, false).unwrap();
    assert_eq!(child_records(&layout, 100, 70, 4, 1, 2), Ok(vec![1, 3, 5, 7]));
    assert_eq!(child_records(&layout, 100, 70, 0, 1, 2), Err(Error::NoChildren));
}

#[test]
fn a_writer_takes_every_tile_of_every_run_in_turn() {
    for (layout, predictor) in [("band", "none"), ("row_group_v1", "byte_delta_v1")] {
        let h = header(layout, predictor);
        let start = h.data_offset();
        let mut writer = Writer::new(header(layout, predictor), options());
        let mut object: Vec<u8> = Vec::new();
        let mut seen = Vec::new();
        let mut last = None;
        while let Some(chunk) = writer.next() {
            seen.push((chunk.first, chunk.node, chunk.count));
            let [x0, y0, x1, y1] = chunk.bounds;
            let windows: Vec<RawBandWindow> = (0..chunk.count)
                .map(|m| band(x1 - x0, y1 - y0, chunk.node * 10 + m))
                .collect();
            let states = vec![Some(state()); chunk.count];
            let wrong: Vec<RawBandWindow> =
                (0..chunk.count).map(|_| band(1, 1, 0)).collect();
            assert_eq!(writer.store(&wrong, &states, &NO).err(), Some(Error::SourceChunk));
            let stored = writer.store(&windows, &states, &NO).unwrap();
            assert_eq!(stored.len(), if layout == "band" { 2 } else { 1 });
            for piece in &stored {
                object.extend_from_slice(&piece.encoded);
                assert_eq!(piece.end, start + object.len() as u64);
            }
            if chunk.node == 3 {
                last = Some((windows, stored));
            }
        }
        assert_eq!(writer.position, start + object.len() as u64);
        assert_eq!(seen, vec![(0, 0, 2), (0, 1, 2), (0, 2, 2), (0, 3, 2)]);
        let (windows, stored) = last.unwrap();
        let length = writer.position;
        let output = if layout == "band" {
            read_back(&h, &stored[1], &[(1, 7)], length)
        } else {
            read_back(&h, &stored[0], &[(0, 6), (1, 7)], length)
        };
        let expected = cut(&windows[1]);
        let found = output.last().unwrap();
        assert_eq!(found.samples_le, expected.samples_le);
        assert_eq!(found.mask, expected.mask);
    }
}

#[test]
fn a_window_is_read_from_the_tiles_that_it_touches() {
    let h = header("band", "none");
    assert_eq!(window_tiles(&h, [0, 0, 100, 70]), vec![0, 1, 2, 3]);
    assert_eq!(window_tiles(&h, [63, 0, 2, 1]), vec![0, 1]);
    assert_eq!(window_tiles(&h, [63, 63, 2, 2]), vec![0, 1, 2, 3]);
    assert_eq!(window_tiles(&h, [64, 64, 36, 6]), vec![3]);
    for x in 0..100 {
        let holding: Vec<usize> = window_tiles(&h, [0, 0, 100, 70])
            .into_iter()
            .filter(|&tile| {
                let b = node_bounds(&h, tile);
                b[0] <= x && x < b[2] && b[1] <= 65 && 65 < b[3]
            })
            .collect();
        assert_eq!(holding, vec![2 + x / 64]);
    }
    assert_eq!(leaf_record(&h, 3, 1), 7);
}

#[test]
fn payloads_are_taken_whole_and_in_turn() {
    let entry = |id: usize, begin: u64, leader: u64| {
        let mut record = vec![0u8; 128];
        record[..8].copy_from_slice(&begin.to_le_bytes());
        record[8..12].copy_from_slice(&10u32.to_le_bytes());
        record[112..120].copy_from_slice(&leader.to_le_bytes());
        Pending { out_index: id, band: id, id, bounds: [0, 0, 64, 64], record }
    };
    let ids = |entries: &[Pending]| entries.iter().map(|e| e.id).collect::<Vec<_>>();
    let mut grouped = vec![entry(0, 100, 0), entry(1, 100, 0), entry(2, 110, 2)];
    assert_eq!(ids(&take_payload(&mut grouped, true)), vec![0, 1]);
    assert_eq!(ids(&take_payload(&mut grouped, true)), vec![2]);
    assert!(grouped.is_empty());
    let mut plain = vec![entry(0, 100, 0), entry(1, 110, 0)];
    assert_eq!(ids(&take_payload(&mut plain, false)), vec![0]);
    assert_eq!(ids(&plain), vec![1]);
}
