//! Digests and block codecs of serving objects.
use std::io::{Read, Write};

use flate2::bufread::ZlibDecoder;
use flate2::write::ZlibEncoder;
use sha2::Digest;
use vstd::prelude::*;
use vstd::slice::slice_to_vec;

use crate::cancel::{check_cancel, ended, Cancel};
use crate::digits::{hex_digit, push_digit};
use crate::error::Error;

verus! {

/// The BLAKE3 digest of a byte string.
pub uninterp spec fn blake3_of(data: Seq<u8>) -> Seq<u8>;

/// The SHA-256 digest of a byte string.
pub uninterp spec fn sha256_of(data: Seq<u8>) -> Seq<u8>;

/// The zlib stream that the encoder writes for a byte string at a level.
pub uninterp spec fn zlib_of(data: Seq<u8>, level: int) -> Seq<u8>;

/// What the decoder reads from the zlib stream at the start of `data`, and how many bytes of
/// `data` it takes: all that the stream holds, or, where that is more than `most` bytes, the
/// first `most` of them. Nothing, where it finds the stream broken before that.
pub uninterp spec fn unzlib_of(data: Seq<u8>, most: int) -> Option<(Seq<u8>, int)>;

/// `blake3::hash`: the 32 bytes of the digest of `data`, a function of `data` alone.
#[verifier::external_body]
pub(crate) fn blake3_hash(data: &[u8]) -> (r: Vec<u8>)
    ensures
        r@ == blake3_of(data@),
        r@.len() == 32,
{
    blake3::hash(data).as_bytes().to_vec()
}

/// `sha2::Sha256::digest`: the 32 bytes of the digest of `data`, a function of `data` alone.
#[verifier::external_body]
pub(crate) fn sha256(data: &[u8]) -> (r: Vec<u8>)
    ensures
        r@ == sha256_of(data@),
        r@.len() == 32,
{
    sha2::Sha256::digest(data).to_vec()
}

/// A stream holds `data` and delimits itself: the decoder gives the bytes back from it, taking
/// all of it and nothing that follows; it stops where it is told to; and it finds every cut of
/// the stream broken.
pub open spec fn stream_of(data: Seq<u8>, stream: Seq<u8>) -> bool {
    &&& stream.len() > 0
    &&& forall|most: int|
        data.len() < most ==> #[trigger] unzlib_of(stream, most) == Some(
            (data, stream.len() as int),
        )
    &&& forall|most: int|
        0 <= most <= data.len() ==> (#[trigger] unzlib_of(stream, most) matches Some((out, used))
            && out == data.take(most))
    &&& forall|more: Seq<u8>, most: int|
        data.len() < most ==> #[trigger] unzlib_of(stream + more, most) == Some(
            (data, stream.len() as int),
        )
    &&& forall|k: int, most: int|
        0 <= k < stream.len() && data.len() < most ==> #[trigger] unzlib_of(stream.take(k), most)
            is None
}

/// `flate2::write::ZlibEncoder` over a vector, given all of `data` and finished. The stream is
/// a function of the bytes and the level, and `flate2::bufread::ZlibDecoder` reads it as the
/// self-delimiting zlib stream of the bytes: whole, up to a bound, with bytes behind it, and
/// with an error where it ends early.
#[verifier::external_body]
pub(crate) fn zlib_encode(data: &[u8], level: u32) -> (r: Vec<u8>)
    requires
        level <= 9,
    ensures
        r@ == zlib_of(data@, level as int),
        stream_of(data@, r@),
{
    let mut encoder = ZlibEncoder::new(Vec::new(), flate2::Compression::new(level));
    encoder.write_all(data).expect("a vector takes every byte");
    encoder.finish().expect("a vector takes every byte")
}

/// `flate2::bufread::ZlibDecoder` over `data`, read to the end of the stream but no further
/// than `most` bytes; and its `total_in`, the bytes it took. Both are functions of the bytes
/// and of `most`. `None` stands for the decoder's error.
#[verifier::external_body]
pub(crate) fn zlib_decode(data: &[u8], most: u64) -> (r: Option<(Vec<u8>, u64)>)
    ensures
        match r {
            None => unzlib_of(data@, most as int) is None,
            Some((out, used)) => unzlib_of(data@, most as int) == Some((out@, used as int)),
        },
        r matches Some((out, used)) ==> out@.len() <= most && used <= data@.len(),
{
    let mut decoder = ZlibDecoder::new(data);
    let mut out = Vec::new();
    match (&mut decoder).take(most).read_to_end(&mut out) {
        Ok(_) => Some((out, decoder.total_in())),
        Err(_) => None,
    }
}

/// The text of a digest: two lower-case hexadecimal digits for each byte.
pub open spec fn hex_of(data: Seq<u8>) -> Seq<char> {
    Seq::new(
        data.len() * 2,
        |i: int|
            hex_digit(
                if i % 2 == 0 {
                    data[i / 2] / 16
                } else {
                    data[i / 2] % 16
                },
            ),
    )
}

/// The compressed block of `input`, or a copy of it.
pub open spec fn encoded(input: Seq<u8>, codec: int, level: int) -> Seq<u8> {
    if codec == 0 {
        input
    } else {
        zlib_of(input, level)
    }
}

/// Encode one block: codec 0 copies it, codec 1 compresses it.
pub fn encode<C: Cancel>(input: &[u8], codec: u32, level: u32, cancel: &C) -> (r: Result<
    Vec<u8>,
    Error,
>)
    requires
        level <= 9,
    ensures
        ended(
            cancel,
            r,
            if codec > 1 {
                r == Err::<Vec<u8>, Error>(Error::UnsupportedCodec)
            } else {
                r matches Ok(out) && out@ == encoded(input@, codec as int, level as int) && (codec
                    == 1 ==> stream_of(input@, out@))
            },
        ),
{
    check_cancel(cancel)?;
    if codec == 0 {
        return Ok(slice_to_vec(input));
    }
    if codec != 1 {
        return Err(Error::UnsupportedCodec);
    }
    let out = zlib_encode(input, level);
    check_cancel(cancel)?;
    Ok(out)
}

/// The most bytes of a block, stored or decoded.
pub const MAX_DECODED: usize = 4194304;

/// What decoding a block gives.
pub open spec fn decoded(input: Seq<u8>, codec: int, expected: int) -> Result<Seq<u8>, Error> {
    if expected > MAX_DECODED {
        Err(Error::DecodedBlockBound)
    } else if codec == 0 {
        if input.len() == expected {
            Ok(input)
        } else {
            Err(Error::UncompressedLength)
        }
    } else if codec != 1 {
        Err(Error::UnsupportedCodec)
    } else if input.len() == 0 || input.len() > MAX_DECODED {
        Err(Error::CodecInput)
    } else {
        match unzlib_of(input, expected + 1) {
            None => Err(Error::InvalidCompressed),
            Some((out, used)) => if out.len() > expected {
                Err(Error::DecompressionOverflow)
            } else if out.len() == expected && used == input.len() {
                Ok(out)
            } else {
                Err(Error::DecompressionMismatch)
            },
        }
    }
}

/// What a decoded stream is worth: the bytes, if there are exactly `expected` of them and
/// nothing follows the stream.
pub fn accept_decoded(stream: Option<(Vec<u8>, u64)>, input: usize, expected: usize) -> (r: Result<
    Vec<u8>,
    Error,
>)
    ensures
        match stream {
            None => r == Err::<Vec<u8>, Error>(Error::InvalidCompressed),
            Some((out, used)) => if out@.len() > expected {
                r == Err::<Vec<u8>, Error>(Error::DecompressionOverflow)
            } else if out@.len() == expected && used == input {
                r matches Ok(bytes) && bytes@ == out@
            } else {
                r == Err::<Vec<u8>, Error>(Error::DecompressionMismatch)
            },
        },
{
    match stream {
        None => Err(Error::InvalidCompressed),
        Some((out, used)) => {
            if out.len() > expected {
                Err(Error::DecompressionOverflow)
            } else if out.len() == expected && used == input as u64 {
                Ok(out)
            } else {
                Err(Error::DecompressionMismatch)
            }
        },
    }
}

/// Decode one block to exactly `expected` bytes.
pub fn decode<C: Cancel>(input: &[u8], codec: u32, expected: usize, cancel: &C) -> (r: Result<
    Vec<u8>,
    Error,
>)
    ensures
        ended(
            cancel,
            r,
            match decoded(input@, codec as int, expected as int) {
                Ok(bytes) => r matches Ok(out) && out@ == bytes,
                Err(e) => r == Err::<Vec<u8>, Error>(e),
            },
        ),
{
    check_cancel(cancel)?;
    if expected > MAX_DECODED {
        return Err(Error::DecodedBlockBound);
    }
    if codec == 0 {
        if input.len() != expected {
            return Err(Error::UncompressedLength);
        }
        return Ok(slice_to_vec(input));
    }
    if codec != 1 {
        return Err(Error::UnsupportedCodec);
    }
    if input.len() == 0 || input.len() > MAX_DECODED {
        return Err(Error::CodecInput);
    }
    let stream = zlib_decode(input, expected as u64 + 1);
    check_cancel(cancel)?;
    accept_decoded(stream, input.len(), expected)
}

/// A block decodes to what was encoded.
pub proof fn decoding_undoes_encoding(input: Seq<u8>, codec: int, out: Seq<u8>)
    requires
        input.len() <= MAX_DECODED,
        codec == 0 || codec == 1,
        codec == 0 ==> out == input,
        codec == 1 ==> out.len() <= MAX_DECODED && stream_of(input, out),
    ensures
        decoded(out, codec, input.len() as int) == Ok::<Seq<u8>, Error>(input),
{
    if codec == 1 {
        assert(unzlib_of(out, input.len() as int + 1) == Some((input, out.len() as int)));
    }
}

/// A compressed block decodes to no other length than that of what was encoded.
pub proof fn decoding_refuses_another_length(input: Seq<u8>, out: Seq<u8>, n: int)
    requires
        stream_of(input, out),
        out.len() <= MAX_DECODED,
        0 <= n,
        n != input.len(),
    ensures
        decoded(out, 1, n) is Err,
        n <= MAX_DECODED ==> decoded(out, 1, n) == Err::<Seq<u8>, Error>(
            if n < input.len() {
                Error::DecompressionOverflow
            } else {
                Error::DecompressionMismatch
            },
        ),
{
    if n < input.len() {
        assert(unzlib_of(out, n + 1) matches Some((o, used)) && o == input.take(n + 1));
    } else {
        assert(unzlib_of(out, n + 1) == Some((input, out.len() as int)));
    }
}

/// Nothing may follow a compressed block.
pub proof fn decoding_refuses_trailing_bytes(input: Seq<u8>, out: Seq<u8>, more: Seq<u8>)
    requires
        stream_of(input, out),
        more.len() > 0,
    ensures
        decoded(out + more, 1, input.len() as int) is Err,
{
    assert(unzlib_of(out + more, input.len() as int + 1) == Some((input, out.len() as int)));
}

/// No byte may be cut from the end of a compressed block.
pub proof fn decoding_refuses_a_cut_block(input: Seq<u8>, out: Seq<u8>, k: int)
    requires
        stream_of(input, out),
        0 <= k < out.len(),
    ensures
        decoded(out.take(k), 1, input.len() as int) is Err,
{
    assert(unzlib_of(out.take(k), input.len() as int + 1) is None);
}

/// No other codec is decoded.
pub proof fn decoding_refuses_another_codec(out: Seq<u8>, codec: int, n: int)
    requires
        codec != 0,
        codec != 1,
    ensures
        decoded(out, codec, n) is Err,
{
}

/// The text of a digest.
pub fn to_hex(data: &[u8]) -> (r: String)
    ensures
        r@ == hex_of(data@),
{
    let mut out: String = String::new();
    let mut i: usize = 0;
    while i < data.len()
        invariant
            i <= data@.len(),
            out@ == hex_of(data@).take(2 * i),
        decreases data@.len() - i,
    {
        push_digit(&mut out, data[i] / 16);
        push_digit(&mut out, data[i] % 16);
        proof {
            let k = 2 * i;
            assert(k % 2 == 0 && k / 2 == i && (k + 1) % 2 == 1 && (k + 1) / 2 == i);
            assert(out@ =~= hex_of(data@).take(2 * (i + 1)));
        }
        i += 1;
    }
    assert(hex_of(data@).take(2 * data@.len() as int) =~= hex_of(data@));
    out
}

} // verus!
