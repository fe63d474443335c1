use skarve::cancel::Fixed;
use skarve::codec::{decode, encode, to_hex};
use skarve::error::Error;
use skarve::skv_deflate::{Budget, CONTEXT_BOUND, PREFIX};
use std::sync::atomic::{AtomicBool, Ordering};

fn hex(value: &str) -> Vec<u8> {
    value
        .as_bytes()
        .chunks_exact(2)
        .map(|pair| u8::from_str_radix(std::str::from_utf8(pair).unwrap(), 16).unwrap())
        .collect()
}

fn encoded(bytes: &[u8]) -> Vec<u8> {
    encode(bytes, 1, 3, &Fixed { requested: false }).unwrap()
}

#[test]
fn codecs_reject_expansion_trailing_data_and_cancellation() {
    let cancel = AtomicBool::new(false);
    let bytes = vec![7u8; 65_537];
    let encoded = encode(&bytes, 1, 3, &cancel).unwrap();
    assert_eq!(decode(&encoded, 1, bytes.len(), &cancel).unwrap(), bytes);
    assert!(decode(&encoded, 1, 10, &cancel).is_err());
    assert!(decode(&encoded, 1, bytes.len() + 1, &cancel).is_err());
    let mut trailing = encoded.clone();
    trailing.push(0);
    assert!(decode(&trailing, 1, bytes.len(), &cancel).is_err());
    assert!(decode(&encoded[..encoded.len() - 2], 1, bytes.len(), &cancel).is_err());
    assert!(decode(&encoded, 2, bytes.len(), &cancel).is_err());
    assert!(decode(&[], 0, usize::MAX, &cancel).is_err());
    cancel.store(true, Ordering::Relaxed);
    assert!(decode(&encoded, 1, bytes.len(), &cancel).is_err());
    assert!(encode(&bytes, 1, 3, &cancel).is_err());
}

#[test]
fn stored_static_dynamic_streams_match_existing_decoder() {
    // Independently generated with system zlib, not the encoder of the library.
    let fixtures = [
        (
            0,
            hex("7801011200edff534b562073746f72656420626c6f636b00ff3c0e06d0"),
            b"SKV stored block\0\xff".to_vec(),
        ),
        (
            1,
            hex("78010bce4e2c2a4b5548cbac484d5148cac94fce66f81f4c811800e0601f19"),
            b"Skarve fixed block\0\xff".repeat(4),
        ),
        (
            2,
            hex(
                "789cedc181000000008020b6fda516a90a0000000000000000000000000000000000000000000000000000000000000018a81681e1",
            ),
            vec![b'A'; 32_768],
        ),
    ];
    for (block_type, input, raw) in fixtures {
        assert_eq!((input[2] >> 1) & 3, block_type);
        let cancel = AtomicBool::new(false);
        assert_eq!(decode(&input, 1, raw.len(), &cancel).unwrap(), raw);
    }
}

#[test]
fn unsupported_dictionary_and_invalid_zlib_headers_reject() {
    let raw = b"SKV wrapper contract";
    let input = encoded(raw);
    let cancel = AtomicBool::new(false);
    // 0x7820 satisfies FCHECK and sets FDICT; supply a complete DICTID.
    let mut dictionary = vec![0x78, 0x20, 0, 0, 0, 1];
    dictionary.extend_from_slice(&input[2..]);
    assert_eq!(u16::from_be_bytes([dictionary[0], dictionary[1]]) % 31, 0);
    assert!(decode(&dictionary, 1, raw.len(), &cancel).is_err());
    for cmf in [0x79u8, 0x88] {
        // wrong method; oversized window
        let flg = (0..=255u8)
            .find(|&flg| flg & 0x20 == 0 && u16::from_be_bytes([cmf, flg]) % 31 == 0)
            .unwrap();
        let mut bad = input.clone();
        bad[..2].copy_from_slice(&[cmf, flg]);
        assert!(decode(&bad, 1, raw.len(), &cancel).is_err());
    }
    let mut bad_check = input.clone();
    bad_check[1] ^= 1;
    assert_ne!(u16::from_be_bytes([bad_check[0], bad_check[1]]) % 31, 0);
    assert!(decode(&bad_check, 1, raw.len(), &cancel).is_err());
}

#[test]
fn corrupt_short_trailing_concatenated_and_cancelled_results_never_escape() {
    let raw = vec![9; 65_537];
    let input = encoded(&raw);
    let cancel = AtomicBool::new(false);
    for n in [0, 1, input.len() - 1] {
        assert!(decode(&input[..n], 1, raw.len(), &cancel).is_err());
    }
    let mut trailing = input.clone();
    trailing.push(0);
    assert!(decode(&trailing, 1, raw.len(), &cancel).is_err());
    let mut joined = input.clone();
    joined.extend_from_slice(&input);
    assert!(decode(&joined, 1, raw.len(), &cancel).is_err());
    let mut corrupt = input.clone();
    *corrupt.last_mut().unwrap() ^= 1;
    assert!(decode(&corrupt, 1, raw.len(), &cancel).is_err());
    assert!(decode(&input, 1, raw.len() - 1, &cancel).is_err());
    assert!(decode(&input, 1, raw.len() + 1, &cancel).is_err());
    assert!(decode(&input, 1, 4 * 1024 * 1024 + 1, &cancel).is_err());
    assert!(decode(&input, 1, raw.len(), &AtomicBool::new(true)).is_err());
    assert_eq!(decode(&input, 1, raw.len(), &cancel).unwrap(), raw);
}

#[test]
fn aggregate_allocator_cap_and_reentrancy_are_enforced_without_global_state() {
    let mut budget = Budget::idle();
    assert!(budget.enter(CONTEXT_BOUND).is_ok());
    assert!(budget.enter(CONTEXT_BOUND).is_err());
    let a = budget.charge(20_000);
    let b = budget.charge(20_000);
    let c = budget.charge(20_000);
    assert!(a.is_some() && b.is_some() && c.is_some());
    assert!(budget.charge(20_000).is_none());
    assert!(budget.charge(usize::MAX).is_none());
    for charge in [b, a, c] {
        budget.release(charge.unwrap());
    }
    assert_eq!(budget.finish().unwrap(), 3 * (20_000 + PREFIX));
}

#[test]
fn budgets_are_bounded_and_returned_in_full() {
    let mut budget = Budget::idle();
    assert_eq!(budget.enter(0), Err(Error::DecoderBudget));
    assert_eq!(budget.enter(CONTEXT_BOUND + 1), Err(Error::DecoderBudget));
    budget.enter(100).unwrap();
    assert_eq!(budget.enter(100), Err(Error::DecoderReentrant));
    assert!(budget.charge(50).is_some());
    assert_eq!(budget.finish(), Err(Error::DecoderContext));
    assert_eq!(budget, Budget::idle());
}

#[test]
fn every_refusal_of_a_block_has_its_own_error() {
    let no = Fixed { requested: false };
    assert_eq!(decode(&[1, 2], 0, 3, &no), Err(Error::UncompressedLength));
    assert_eq!(decode(&[1, 2], 0, 2, &no), Ok(vec![1, 2]));
    assert_eq!(decode(&[1, 2], 2, 2, &no), Err(Error::UnsupportedCodec));
    assert_eq!(decode(&[1, 2], 1, usize::MAX, &no), Err(Error::DecodedBlockBound));
    assert_eq!(decode(&[1, 2], 1, 2, &no), Err(Error::InvalidCompressed));
    let block = encoded(&[5; 100]);
    assert_eq!(decode(&block, 1, 99, &no), Err(Error::DecompressionOverflow));
    assert_eq!(decode(&block, 1, 101, &no), Err(Error::DecompressionMismatch));
    assert_eq!(encode(&[1], 2, 3, &no), Err(Error::UnsupportedCodec));
    assert_eq!(encode(&[1, 2, 3], 0, 3, &no), Ok(vec![1, 2, 3]));
    assert_eq!(
        decode(&block, 1, 100, &Fixed { requested: true }),
        Err(Error::Cancelled)
    );
    assert_eq!(to_hex(&[0, 171, 16]), "00ab10");
}

#[test]
fn compressed_blocks_are_bounded_before_they_are_decoded() {
    let cancel = Fixed { requested: false };
    assert_eq!(decode(&[], 1, 0, &cancel), Err(Error::CodecInput));
    assert_eq!(decode(&vec![0; (4 << 20) + 1], 1, 0, &cancel), Err(Error::CodecInput));
    assert_eq!(decode(&encoded(b""), 1, 0, &cancel), Ok(Vec::new()));
}
