use skarve::cancel::{check_cancel, Fixed};
use skarve::codec::{decode, encode, MAX_DECODED};
use skarve::error::Error;
use skarve::layout::SummaryLayout;
use skarve::model::Grid;
use skarve::skv_audit::Audit;
use skarve::skv_directory::{make_page, state_of, SummaryBits};
use skarve::skv_header::{
    CompileOptions, Header, HierarchyDescription, BOOTSTRAP, RECORDS_PER_PAGE,
};
use skarve::skv_record::{blank_record, write_state};
use skarve::skv_verify::{Verification, VerifyNeed};
use skarve::skv_reader::{Reader, MAX_READS};
use skarve::skv_window_serve::{Need, WindowServe};
use skarve::skv_writer::Writer;
use skarve::source::{RawBandMetadata, RawBandWindow, RawRasterMetadata, RawScalarType};

const NO: Fixed = Fixed { requested: false };

fn header(layout: &str) -> Header {
    let hierarchy = SummaryLayout::new(100, 70, 64, false).unwrap();
    let scalars = [RawScalarType::UInt16, RawScalarType::UInt16, RawScalarType::Byte];
    Header {
        version: 0,
        grid: Grid {
            width: 100,
            height: 70,
            transform_bits: [0; 6],
            crs: "LOCAL".to_owned(),
        },
        raw_metadata: RawRasterMetadata {
            bands: scalars
                .iter()
                .enumerate()
                .map(|(index, &scalar_type)| RawBandMetadata {
                    scalar_type,
                    nodata_f64_bits: None,
                    scale_f64_bits: 1f64.to_bits(),
                    offset_f64_bits: 0,
                    unit: None,
                    mask_flags: 0,
                    original_band_index: index,
                    description: String::new(),
                })
                .collect(),
            pixel_convention: "Area".to_owned(),
            source_band_count: 3,
            source_overview: None,
        },
        chunk_edge: 64,
        band_group: 4,
        payload_layout: layout.to_owned(),
        codec: "deflate".to_owned(),
        predictor: "none".to_owned(),
        compression_level: 3,
        summaries: true,
        hierarchy: HierarchyDescription { tile_edge: 64, levels: hierarchy.levels },
        numerical_schema: "native_grid_planar_compensated_v1".to_owned(),
        build_id: "a".repeat(64),
        original_source_id: "source".to_owned(),
        original_identity: None,
        logical_digest: "b".repeat(64),
        directory_digest: "c".repeat(64),
        summary_disabled_reason: None,
    }
}

fn sample(band: usize, x: usize, y: usize, byte: usize) -> u8 {
    ((x * 7 + y * 13 + band * 101 + byte * 57) % 251) as u8
}

fn mask(band: usize, x: usize, y: usize) -> u8 {
    if (x + 2 * y + band) % 5 == 0 {
        0
    } else {
        255
    }
}

fn widths(h: &Header) -> Vec<usize> {
    h.raw_metadata.bands.iter().map(|b| b.scalar_type.byte_width()).collect()
}

fn window_of(h: &Header, band: usize, window: [usize; 4]) -> RawBandWindow {
    let [x0, y0, w, height] = window;
    let width = widths(h)[band];
    let cells: Vec<(usize, usize)> =
        (0..w * height).map(|c| (x0 + c % w, y0 + c / w)).collect();
    RawBandWindow {
        samples_le: cells
            .iter()
            .flat_map(|&(x, y)| (0..width).map(move |p| sample(band, x, y, p)))
            .collect(),
        mask: cells.iter().map(|&(x, y)| mask(band, x, y)).collect(),
    }
}

/// An object of every tile: its bytes and its records.
fn written(layout: &str) -> (Vec<u8>, Vec<Vec<u8>>) {
    let state = SummaryBits { sum_high: 0, sum_low: 0, count: 0, min: 0, max: 0 };
    let options = CompileOptions { chunk_edge: 64, ..CompileOptions::default() };
    let mut writer = Writer::new(header(layout), options);
    let mut object = vec![0u8; header(layout).data_offset() as usize];
    assert!(object.len() > BOOTSTRAP);
    let mut records = vec![Vec::new(); 12];
    while let Some(chunk) = writer.next() {
        let [x0, y0, x1, y1] = chunk.bounds;
        let windows: Vec<RawBandWindow> = (chunk.first..chunk.first + chunk.count)
            .map(|band| window_of(&header(layout), band, [x0, y0, x1 - x0, y1 - y0]))
            .collect();
        let states = vec![Some(state); chunk.count];
        let mut at = chunk.node * 3 + chunk.first;
        for piece in writer.store(&windows, &states, &NO).unwrap() {
            object.extend_from_slice(&piece.encoded);
            for record in piece.records {
                records[at] = record;
                at += 1;
            }
        }
    }
    (object, records)
}

#[test]
fn a_window_that_is_read_step_by_step_is_what_was_written() {
    for layout in ["band", "row_group_v1"] {
        let h = header(layout);
        assert_eq!(h.validate(), Ok(()));
        let (object, records) = written(layout);
        for (window, bands) in [
            ([0, 0, 100, 70], vec![0usize, 1, 2]),
            ([60, 60, 10, 8], vec![2, 0]),
            ([66, 65, 3, 2], vec![1]),
        ] {
            let length = object.len() as u64;
            let mapping = [0usize, 1, 2];
            let mut serve =
                WindowServe::new(&h, length, &mapping, window, &bands, 1 << 22, 1 << 30).unwrap();
            let mut asked = Vec::new();
            let mut reads = 0;
            loop {
                match serve.next(&h) {
                    Need::Record(id) => {
                        asked.push(id);
                        serve.record(&h, id, records[id].clone()).unwrap();
                    }
                    Need::Fetch { offset, length } => {
                        reads += 1;
                        let end = offset as usize + length;
                        serve.fetched(&h, &object[offset as usize..end], &NO).unwrap();
                    }
                    Need::Done => break,
                }
            }
            assert!(reads > 0);
            assert_eq!(asked[0], if window[0] == 66 { 10 } else { bands[0] });
            let read = serve.finish(&h);
            assert_eq!((read.width, read.height), (window[2], window[3]));
            for (out, &band) in bands.iter().enumerate() {
                let expected = window_of(&h, band, window);
                assert_eq!(read.bands[out].samples_le, expected.samples_le);
                assert_eq!(read.bands[out].mask, expected.mask);
            }
        }
    }
}

#[test]
fn a_read_is_refused_before_and_while_it_runs() {
    let h = header("row_group_v1");
    let (object, records) = written("row_group_v1");
    let length = object.len() as u64;
    let start = |window: [usize; 4], bands: &[usize], max: usize| {
        WindowServe::new(&h, length, &[0, 1, 2], window, bands, 1 << 22, max).err()
    };
    assert_eq!(start([0, 0, 101, 1], &[0], 1 << 30), Some(Error::SkvWindow));
    assert_eq!(start([0, 0, 1, 1], &[3], 1 << 30), Some(Error::SkvBands));
    assert_eq!(start([0, 0, 1, 1], &[0], 8 << 20), Some(Error::SkvRawBudget));
    assert_eq!(start([0, 0, 1, 1], &[0], (8 << 20) + 3), None);
    let open = |bands: &[usize], limit: usize| {
        WindowServe::new(&h, length, &[0, 1, 2], [0, 0, 9, 9], bands, limit, 1 << 30).unwrap()
    };
    let mut wrong = open(&[0], 1 << 22);
    assert_eq!(wrong.record(&h, 0, records[1].clone()), Err(Error::RecordFeatures));
    let mut small = open(&[0], 10);
    assert_eq!(small.record(&h, 0, records[0].clone()), Err(Error::PayloadRange));
    let mut alias = open(&[0, 1], 1 << 22);
    alias.record(&h, 0, records[0].clone()).unwrap();
    let mut moved = records[1].clone();
    moved[..8].copy_from_slice(&h.data_offset().wrapping_add(1).to_le_bytes());
    assert_eq!(alias.record(&h, 1, moved), Err(Error::PayloadAlias));
    let mut cut = open(&[0], 1 << 22);
    cut.record(&h, 0, records[0].clone()).unwrap();
    let Need::Record(next) = cut.next(&h) else {
        let Need::Fetch { offset, length } = cut.next(&h) else { panic!("nothing to read") };
        let end = offset as usize + length;
        let whole = &object[offset as usize..end];
        assert_eq!(cut.fetched(&h, &whole[1..], &NO), Err(Error::PayloadRange));
        let mut again = open(&[0], 1 << 22);
        again.record(&h, 0, records[0].clone()).unwrap();
        let mut corrupt = whole.to_vec();
        corrupt[0] ^= 1;
        assert!(again.fetched(&h, &corrupt, &NO).is_err());
        return;
    };
    panic!("another record {next} is asked for");
}

#[test]
fn payloads_follow_one_chain() {
    let h = header("row_group_v1");
    let mut seen = vec![0usize];
    while let Some(next) = h.physical_neighbors(*seen.last().unwrap()).unwrap().1 {
        assert_eq!(h.physical_neighbors(next).unwrap().0, seen.last().copied());
        seen.push(next);
    }
    assert_eq!(h.physical_neighbors(0).unwrap().0, None);
    let mut leaders: Vec<usize> =
        (0..12).filter(|&id| h.canonical_group(id).unwrap().0 == id).collect();
    assert_eq!(seen.len(), leaders.len());
    let last = *seen.last().unwrap();
    seen.sort_unstable();
    leaders.sort_unstable();
    assert_eq!(seen, leaders);
    assert_eq!(last, 11);
}

#[test]
fn exact_bounded_zlib_output_and_fresh_contexts() {
    for n in [0usize, 1, 65_536, 3_276_800, MAX_DECODED] {
        let raw = (0..n).map(|i| ((i * 73 + (i >> 7)) & 255) as u8).collect::<Vec<_>>();
        let input = encode(&raw, 1, 3, &NO).unwrap();
        for _ in 0..2 {
            let decoded = decode(&input, 1, raw.len(), &Fixed { requested: false }).unwrap();
            assert_eq!(decoded, raw);
        }
    }
}

#[test]
fn a_block_decodes_to_no_other_length_and_from_no_other_stream() {
    let bytes: Vec<u8> = (0..5000u32).map(|i| (i * i % 253) as u8).collect();
    let encoded = encode(&bytes, 1, 3, &NO).unwrap();
    assert_eq!(decode(&encoded, 1, bytes.len(), &NO), Ok(bytes.clone()));
    assert_eq!(decode(&encoded, 1, bytes.len() - 1, &NO), Err(Error::DecompressionOverflow));
    assert_eq!(decode(&encoded, 1, bytes.len() + 1, &NO), Err(Error::DecompressionMismatch));
    assert_eq!(decode(&encoded, 1, 0, &NO), Err(Error::DecompressionOverflow));
    let mut longer = encoded.clone();
    longer.push(0);
    assert_eq!(decode(&longer, 1, bytes.len(), &NO), Err(Error::DecompressionMismatch));
    for cut in 1..encoded.len() {
        assert!(decode(&encoded[..encoded.len() - cut], 1, bytes.len(), &NO).is_err());
    }
    assert_eq!(decode(&encoded, 2, bytes.len(), &NO), Err(Error::UnsupportedCodec));
    assert!(decode(&encoded, 1, bytes.len(), &Fixed { requested: true }).is_err());
}

#[test]
fn exhaustive_local_verification_does_not_relax_serving_read_limit() {
    let mut reader = Reader::new(header("band"), 1 << 20, 1);
    reader.logical_reads = MAX_READS;
    assert!(reader.charge().is_err());
    let prior = reader.begin_verification(true).unwrap();
    for _ in 0..12 * 81 {
        reader.charge().unwrap();
    }
    reader.end_verification(prior);
    assert_eq!(reader.logical_read_limit, MAX_READS);
    assert!(reader.charge().is_err());
    let prior = reader.begin_verification(true).unwrap();
    assert!(check_cancel(&Fixed { requested: true }).is_err());
    reader.end_verification(prior);
    assert_eq!(reader.logical_read_limit, MAX_READS);
    let remote = reader.begin_verification(false).unwrap();
    assert!(reader.charge().is_err());
    reader.end_verification(remote);
}

#[test]
fn a_whole_object_is_verified_step_by_step() {
    for layout in ["band", "row_group_v1"] {
        let (object, leaves) = written(layout);
        let mut h = header(layout);
        let length = object.len() as u64;
        let empty = SummaryBits { sum_high: 0, sum_low: 0, count: 0, min: 0, max: 0 };
        let mut records = leaves;
        for id in records.len()..h.records() {
            let mut record = blank_record(id, false);
            write_state(&mut record, &empty);
            records.push(record);
        }
        let pages: Vec<Vec<u8>> = records
            .chunks(RECORDS_PER_PAGE)
            .enumerate()
            .map(|(id, part)| make_page(records.len(), id, &part.concat()))
            .collect();
        let mut audit = Audit::new();
        for page in &pages {
            audit.page(records.len(), page).unwrap();
        }
        h.directory_digest = audit.directory_digest();
        for id in 0..12 {
            let tile = [[0, 0, 64, 64], [64, 0, 36, 64], [0, 64, 64, 6], [64, 64, 36, 6]][id / 3];
            let window = window_of(&h, id % 3, tile);
            audit.payload(id, &[window.samples_le, window.mask].concat());
        }
        h.logical_digest = audit.logical_digest(&h, false).unwrap();
        let run = |h: &Header, object: &[u8]| {
            let mut verification = Verification::new(h, length);
            loop {
                match verification.next(h) {
                    VerifyNeed::Page(id) => verification.page(h, &pages[id])?,
                    VerifyNeed::Record(id) => {
                        verification.record(h, records[id].clone(), &NO)?;
                    }
                    VerifyNeed::Payload { offset, length } => {
                        let at = offset as usize;
                        verification.payload(h, &object[at..at + length], &NO)?;
                    }
                    VerifyNeed::Summary(id) => {
                        verification.summary(h, state_of(&records[id]))?;
                    }
                    VerifyNeed::Done => return verification.finish(h, true),
                }
            }
        };
        let (digest, states) = run(&h, &object).unwrap();
        assert_eq!(digest, h.logical_digest);
        assert_eq!(states, records.len());
        let mut corrupt = object.clone();
        *corrupt.last_mut().unwrap() ^= 1;
        assert_eq!(run(&h, &corrupt), Err(Error::PayloadChecksum));
        let mut other = header(layout);
        other.directory_digest = h.directory_digest.clone();
        assert_eq!(run(&other, &object), Err(Error::AuditLogical));
        assert_eq!(run(&header(layout), &object), Err(Error::AuditDirectory));
    }
}
