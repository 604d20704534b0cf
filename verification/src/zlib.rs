//! Trusted boundary to the compression collaborator: the byte-level zlib
//! and gzip transforms of the flate2 crate. Each transform's output is a
//! function of the input bytes alone, so it is given a name that the
//! callers' contracts speak of; nothing else is assumed of it beyond the
//! documented lossless round trip.
use vstd::prelude::*;

use flate2::Compression;
use flate2::write::GzDecoder;
use flate2::write::ZlibDecoder;
use flate2::write::ZlibEncoder;
use std::io::Write;

verus! {

/// Bytes that the speed-optimized zlib transform produces for the input.
pub uninterp spec fn zlib_deflate_fast(b: Seq<u8>) -> Seq<u8>;

/// Bytes that the zlib inverse transform recovers from a stream, or `None`
/// for a corrupt stream.
pub uninterp spec fn zlib_inflate(b: Seq<u8>) -> Option<Seq<u8>>;

/// Bytes that the legacy gzip inverse transform recovers from a stream, or
/// `None` for a corrupt stream.
pub uninterp spec fn gzip_inflate(b: Seq<u8>) -> Option<Seq<u8>>;

/// Relies on flate2's `ZlibEncoder` with `Compression::fast`: writing to an
/// in-memory buffer cannot fail, and the documented lossless round trip
/// means the matching decoder recovers exactly the input bytes.
#[verifier::external_body]
pub(crate) fn zlib_compress(bytes: &[u8]) -> (r: Vec<u8>)
    ensures
        r@ == zlib_deflate_fast(bytes@),
        zlib_inflate(r@) == Some(bytes@),
{
    let mut encoder = ZlibEncoder::new(Vec::new(), Compression::fast());
    encoder.write_all(bytes).expect("writing to a byte buffer cannot fail");
    encoder.finish().expect("finishing an in-memory zlib stream cannot fail")
}

/// Relies on flate2's `ZlibDecoder`: recovers the bytes that the zlib
/// transform was applied to; a corrupt stream fails. A truncated stream
/// whose bytes were all consumed can finish without error in this writer
/// API and yield the partial output, which then surfaces downstream as a
/// malformed tree.
#[verifier::external_body]
pub(crate) fn zlib_decompress(bytes: &[u8]) -> (r: Option<Vec<u8>>)
    ensures
        match r {
            Some(d) => zlib_inflate(bytes@) == Some(d@),
            None => zlib_inflate(bytes@) is None,
        },
{
    let mut decoder = ZlibDecoder::new(Vec::new());
    if decoder.write_all(bytes).is_err() {
        return None;
    }
    decoder.finish().ok()
}

/// Relies on flate2's `GzDecoder`: recovers the bytes that the legacy gzip
/// transform was applied to; header, checksum and length failures all fail
/// the call.
#[verifier::external_body]
pub(crate) fn gzip_decompress(bytes: &[u8]) -> (r: Option<Vec<u8>>)
    ensures
        match r {
            Some(d) => gzip_inflate(bytes@) == Some(d@),
            None => gzip_inflate(bytes@) is None,
        },
{
    let mut decoder = GzDecoder::new(Vec::new());
    if decoder.write_all(bytes).is_err() {
        return None;
    }
    decoder.finish().ok()
}

} // verus!
