//! Packing of several bands into one packet, and restoring windows from it.
use std::sync::atomic::AtomicBool;

use skarve::skv_group::{
    encode, extract, insert, restore_member_window, shape, CopyRegion, MAX_BYTES,
};
use skarve::skv_native::restore_member_native_window;
use skarve::source::{Band, RawBandMetadata, RawBandWindow, RawScalarType};

fn raw_value(kind: RawScalarType, bytes: &[u8]) -> f64 {
    match kind {
        RawScalarType::Byte => bytes[0] as f64,
        RawScalarType::Int8 => bytes[0] as i8 as f64,
        RawScalarType::UInt16 => u16::from_le_bytes(bytes.try_into().unwrap()) as f64,
        RawScalarType::Int16 => i16::from_le_bytes(bytes.try_into().unwrap()) as f64,
        RawScalarType::UInt32 => u32::from_le_bytes(bytes.try_into().unwrap()) as f64,
        RawScalarType::Int32 => i32::from_le_bytes(bytes.try_into().unwrap()) as f64,
        RawScalarType::Float32 => f32::from_le_bytes(bytes.try_into().unwrap()) as f64,
        RawScalarType::Float64 => f64::from_le_bytes(bytes.try_into().unwrap()),
    }
}

/// The finite/raw-mask/missing-value predicate comes before scale and offset.
fn normalize_raw_sample(
    raw: f64,
    mask: u8,
    nodata: Option<f64>,
    scale: f64,
    offset: f64,
) -> (f64, bool) {
    let present = mask != 0
        && raw.is_finite()
        && !nodata.is_some_and(|missing| raw == missing || (raw.is_nan() && missing.is_nan()));
    let decoded = raw * scale + offset;
    let valid = present && decoded.is_finite();
    (if valid { decoded } else { 0.0 }, valid)
}

fn native_info(scalar_type: RawScalarType) -> RawBandMetadata {
    RawBandMetadata {
        scalar_type,
        nodata_f64_bits: Some((-9999.0f64).to_bits()),
        scale_f64_bits: 2.0f64.to_bits(),
        offset_f64_bits: (-1.0f64).to_bits(),
        unit: Some("test".into()),
        mask_flags: 0,
        original_band_index: 0,
        description: String::new(),
    }
}

#[test]
fn native_group_restore_matches_raw_interpretation_at_partial_row_edges() {
    let cancel = AtomicBool::new(false);
    for kind in [
        RawScalarType::Byte,
        RawScalarType::Int8,
        RawScalarType::UInt16,
        RawScalarType::Int16,
        RawScalarType::UInt32,
        RawScalarType::Int32,
        RawScalarType::Float32,
        RawScalarType::Float64,
    ] {
        let info = native_info(kind);
        let scalar = kind.byte_width();
        for width in [1, 31, 255, 256] {
            let (height, count) = (3, 3);
            let (cells, band_bytes) = shape(width, height, scalar, count).unwrap();
            let mut original = (0..count)
                .map(|member| {
                    (0..band_bytes)
                        .map(|i| ((i * 73 + member * 29 + (i >> 8)) & 255) as u8)
                        .collect::<Vec<_>>()
                })
                .collect::<Vec<_>>();
            for (member, bytes) in original.iter_mut().enumerate() {
                for cell in 0..cells {
                    let value = [
                        0.0,
                        -0.0,
                        f64::from_bits(0x7ff8_1234_5678_9abc),
                        f64::INFINITY,
                        f64::NEG_INFINITY,
                        -9999.0,
                        12.25,
                        -7.5,
                    ][(cell + member) % 8];
                    match kind {
                        RawScalarType::Float32 => bytes[cell * scalar..(cell + 1) * scalar]
                            .copy_from_slice(&(value as f32).to_le_bytes()),
                        RawScalarType::Float64 => bytes[cell * scalar..(cell + 1) * scalar]
                            .copy_from_slice(&value.to_le_bytes()),
                        _ => {}
                    }
                    bytes[cells * scalar + cell] = [0, 1, 127, 255][(cell + member) % 4];
                }
            }
            for predicted in [false, true] {
                // Independent row/plane/member wire construction, including
                // masks in their distinct cell/member order.
                let mut packet = Vec::with_capacity(band_bytes * count);
                for y in 0..height {
                    for plane in 0..scalar {
                        for x in 0..width {
                            for bytes in &original {
                                let current = bytes[(y * width + x) * scalar + plane];
                                let prior = if predicted && x > 0 {
                                    bytes[(y * width + x - 1) * scalar + plane]
                                } else {
                                    0
                                };
                                packet.push(current.wrapping_sub(prior));
                            }
                        }
                    }
                }
                for cell in 0..cells {
                    for bytes in &original {
                        packet.push(bytes[cells * scalar + cell]);
                    }
                }
                for x0 in [0, width / 2, width - 1] {
                    let columns = width - x0;
                    let (ow, oh) = (columns + 3, 4);
                    for member in [2, 0, 1] {
                        let mut output = Band {
                            values: vec![-123.25; ow * oh],
                            valid: vec![true; ow * oh],
                            unit: info.unit.clone(),
                        };
                        let copied = restore_member_native_window(
                            &packet,
                            member,
                            count,
                            width,
                            height,
                            &info,
                            predicted,
                            CopyRegion {
                                source: [x0, 1, width, height],
                                target: [2, 1],
                                output_shape: [ow, oh],
                            },
                            &mut output,
                            &|bits: u64, mask: u8| {
                                normalize_raw_sample(
                                    raw_value(kind, &bits.to_le_bytes()[..scalar]),
                                    mask,
                                    Some(-9999.0),
                                    2.0,
                                    -1.0,
                                )
                            },
                            &cancel,
                        )
                        .unwrap();
                        assert_eq!(copied, columns * 2 * (scalar + 1));
                        assert_eq!(output.unit, info.unit);
                        for y in 0..oh {
                            for x in 0..ow {
                                let expected = if (1..3).contains(&y)
                                    && (2..columns + 2).contains(&x)
                                {
                                    let cell = y * width + x0 + x - 2;
                                    let bytes =
                                        &original[member][cell * scalar..(cell + 1) * scalar];
                                    let raw = raw_value(kind, bytes);
                                    normalize_raw_sample(
                                        raw,
                                        original[member][cells * scalar + cell],
                                        Some(-9999.0),
                                        2.0,
                                        -1.0,
                                    )
                                } else {
                                    (-123.25, true)
                                };
                                assert_eq!(
                                    output.values[y * ow + x].to_bits(),
                                    expected.0.to_bits()
                                );
                                assert_eq!(output.valid[y * ow + x], expected.1);
                            }
                        }
                    }
                }
            }
        }
    }
}

#[test]
fn native_group_restore_rejects_invalid_or_cancelled_work_before_writing() {
    let info = native_info(RawScalarType::Float32);
    let mut output: Band<f64> = Band {
        values: vec![-123.25; 4],
        valid: vec![true; 4],
        unit: info.unit.clone(),
    };
    for (source, target, shape, member, length, cancelled) in [
        ([0, 0, 2, 2], [0, 0], [2, 2], 0, 20, true),
        ([1, 0, 3, 2], [0, 0], [2, 2], 0, 20, false),
        ([0, 0, 2, 2], [1, 0], [2, 2], 0, 20, false),
        ([0, 0, 2, 2], [usize::MAX, 0], [2, 2], 0, 20, false),
        ([0, 0, 0, 2], [0, 0], [2, 2], 0, 20, false),
        ([0, 0, 2, 2], [0, 0], [usize::MAX, 2], 0, 20, false),
        ([0, 0, 2, 2], [0, 0], [1, 2], 0, 20, false),
        ([0, 0, 2, 2], [0, 0], [2, 2], 1, 20, false),
        ([0, 0, 2, 2], [0, 0], [2, 2], 0, 19, false),
    ] {
        assert!(
            restore_member_native_window(
                &[0; 20][..length],
                member,
                1,
                2,
                2,
                &info,
                true,
                CopyRegion {
                    source,
                    target,
                    output_shape: shape,
                },
                &mut output,
                &|_: u64, _: u8| (0.0, false),
                &AtomicBool::new(cancelled),
            )
            .is_err()
        );
        assert_eq!(output.values, [-123.25; 4]);
        assert_eq!(output.valid, [true; 4]);
    }
}

#[test]
fn grouped_byte_packing_preserves_every_component_and_partial_rows() {
    let cancel = AtomicBool::new(false);
    for scalar in [1, 2, 4, 8] {
        for planes in [false, true] {
            let (w, h, count) = (31, 17, 13);
            let (_, n) = shape(w, h, scalar, count).unwrap();
            let input = (0..count)
                .map(|b| {
                    (0..n)
                        .map(|i| ((i * 73 + b * 29 + (i >> 8)) & 255) as u8)
                        .collect::<Vec<_>>()
                })
                .collect::<Vec<_>>();
            let mut packet = vec![0; n * count];
            for (b, values) in input.iter().enumerate() {
                insert(&mut packet, values, b, count, w, h, scalar, planes, &cancel).unwrap();
            }
            for b in (0..count).rev() {
                assert_eq!(
                    extract(&packet, b, count, w, h, scalar, planes, &cancel).unwrap(),
                    input[b]
                );
            }
            assert!(extract(&packet, count, count, w, h, scalar, planes, &cancel).is_err());
        }
    }
}

#[test]
fn group_cap_admits_forty_bands_without_raising_the_scratch_budget() {
    assert_eq!(shape(128, 128, 4, 40).unwrap().1 * 40, MAX_BYTES);
    assert!(shape(128, 128, 4, 41).is_err());
    assert!(shape(256, 256, 4, 11).is_err());
    assert!(shape(usize::MAX, 1, 4, 1).is_err());
    assert!(shape(1, 1, 8, 65).is_err());
}

#[test]
fn bounded_encoding_falls_back_raw_and_observes_cancellation() {
    let cancel = AtomicBool::new(false);
    let (output, codec) = encode(&[123], 1, 3, &cancel).unwrap();
    assert_eq!(codec, 0);
    assert_eq!(output, [123]);
    let (output, codec) = encode(&vec![0; 65536], 1, 3, &cancel).unwrap();
    assert_eq!(codec, 1);
    assert!(output.len() < 65536);
    assert!(encode(&[1], 1, 3, &AtomicBool::new(true)).is_err());
    assert!(extract(&[0; 10], 0, 1, 2, 1, 4, false, &AtomicBool::new(true)).is_err());
}

#[test]
fn fused_restore_preserves_prefixes_masks_bits_and_untouched_destination() {
    let cancel = AtomicBool::new(false);
    let (w, h) = (31, 17);
    for scalar in [1, 2, 4, 8] {
        for count in [1, 3, 40, 64] {
            let (_, band_bytes) = shape(w, h, scalar, count).unwrap();
            let original = (0..count)
                .map(|b| {
                    (0..band_bytes)
                        .map(|i| ((i * 73 + b * 29 + (i >> 8)) & 255) as u8)
                        .collect::<Vec<_>>()
                })
                .collect::<Vec<_>>();
            for predicted in [false, true] {
                // Independent wire construction avoids relying on insert or
                // the existing extraction/inverse implementation as oracle.
                let mut packet = Vec::with_capacity(band_bytes * count);
                for y in 0..h {
                    for plane in 0..scalar {
                        for x in 0..w {
                            for bytes in &original {
                                let byte = bytes[(y * w + x) * scalar + plane];
                                let prior = if predicted && x > 0 {
                                    bytes[(y * w + x - 1) * scalar + plane]
                                } else {
                                    0
                                };
                                packet.push(byte.wrapping_sub(prior));
                            }
                        }
                    }
                }
                for cell in 0..w * h {
                    for bytes in &original {
                        packet.push(bytes[w * h * scalar + cell]);
                    }
                }
                for [x0, y0, x1, y1] in [
                    [0, 0, w, h],
                    [17, 4, 30, 16],
                    [30, 16, 31, 17],
                    [0, 7, 1, 8],
                ] {
                    let (ow, oh) = (x1 - x0 + 4, y1 - y0 + 5);
                    for member in [count - 1, 0, count / 2] {
                        let mut output = RawBandWindow {
                            samples_le: vec![0xa5; ow * oh * scalar],
                            mask: vec![0xa5; ow * oh],
                        };
                        let copied = restore_member_window(
                            &packet,
                            member,
                            count,
                            w,
                            h,
                            scalar,
                            predicted,
                            CopyRegion {
                                source: [x0, y0, x1, y1],
                                target: [2, 3],
                                output_shape: [ow, oh],
                            },
                            &mut output,
                            &cancel,
                        )
                        .unwrap();
                        assert_eq!(copied, (x1 - x0) * (y1 - y0) * (scalar + 1));
                        for y in 0..oh {
                            for x in 0..ow {
                                let inside =
                                    x >= 2 && x < x1 - x0 + 2 && y >= 3 && y < y1 - y0 + 3;
                                let cell =
                                    (y0 + y.saturating_sub(3)) * w + x0 + x.saturating_sub(2);
                                for plane in 0..scalar {
                                    assert_eq!(
                                        output.samples_le[(y * ow + x) * scalar + plane],
                                        if inside {
                                            original[member][cell * scalar + plane]
                                        } else {
                                            0xa5
                                        }
                                    );
                                }
                                assert_eq!(
                                    output.mask[y * ow + x],
                                    if inside {
                                        original[member][w * h * scalar + cell]
                                    } else {
                                        0xa5
                                    }
                                );
                            }
                        }
                    }
                }
            }
        }
    }
}

#[test]
fn fused_restore_invalid_or_cancelled_work_does_not_touch_destination() {
    let mut output = RawBandWindow {
        samples_le: vec![0xa5; 16],
        mask: vec![0xa5; 4],
    };
    for (source, target, cancelled) in [
        ([0, 0, 2, 2], [0, 0], true),
        ([1, 0, 3, 2], [0, 0], false),
        ([0, 0, 2, 2], [1, 0], false),
        ([0, 0, 2, 2], [usize::MAX, 0], false),
        ([0, 0, 0, 2], [0, 0], false),
    ] {
        assert!(
            restore_member_window(
                &[0; 20],
                0,
                1,
                2,
                2,
                4,
                true,
                CopyRegion {
                    source,
                    target,
                    output_shape: [2, 2]
                },
                &mut output,
                &AtomicBool::new(cancelled)
            )
            .is_err()
        );
        assert_eq!(output.samples_le, [0xa5; 16]);
        assert_eq!(output.mask, [0xa5; 4]);
    }
}
