//! The compression codec: every stored object is a zlib stream.

use vstd::prelude::*;
use std::io::Read;
use std::io::Write;
use crate::error::Error;

verus! {

#[verifier::external_type_specification]
#[verifier::external_body]
pub struct ExIoError(std::io::Error);

/// The zlib stream that `flate2`'s encoder makes of a byte sequence at the
/// default compression level.
pub uninterp spec fn zlib_compressed(data: Seq<u8>) -> Seq<u8>;

/// What `flate2`'s decoder reads out of a zlib stream, or `None` where it
/// reports the stream as truncated or corrupt.
pub uninterp spec fn zlib_decompressed(data: Seq<u8>) -> Option<Seq<u8>>;

/// Runs `data` through `flate2::write::ZlibEncoder` at the default level, into
/// a vector, and finishes the stream. Trusted: the stream is a function of
/// the input alone, and `flate2`'s decoder reads the input back out of it.
#[verifier::external_body]
pub(crate) fn zlib_encode(data: &[u8]) -> (out: Vec<u8>)
    ensures
        out@ == zlib_compressed(data@),
        zlib_decompressed(out@) == Some(data@),
{
    let mut encoder = flate2::write::ZlibEncoder::new(Vec::new(), flate2::Compression::default());
    encoder.write_all(data).expect("writing to a vector");
    encoder.finish().expect("writing to a vector")
}

/// Reads all of `data` through `flate2::read::ZlibDecoder`. Trusted: what
/// comes out, or that the decoder fails, is a function of the input alone.
#[verifier::external_body]
pub(crate) fn zlib_decode(data: &[u8]) -> (res: Result<Vec<u8>, std::io::Error>)
    ensures
        match res {
            Ok(out) => zlib_decompressed(data@) == Some(out@),
            Err(_) => zlib_decompressed(data@) is None,
        },
{
    let mut out: Vec<u8> = Vec::new();
    flate2::read::ZlibDecoder::new(data).read_to_end(&mut out)?;
    Ok(out)
}

/// Compresses a serialized object for storage.
pub fn compress(data: &[u8]) -> (out: Vec<u8>)
    ensures
        out@ == zlib_compressed(data@),
        zlib_decompressed(out@) == Some(data@),
{
    zlib_encode(data)
}

/// Decompresses a stored object; a truncated or corrupt stream is an error,
/// never a short read.
pub fn decompress(data: &[u8]) -> (res: Result<Vec<u8>, Error>)
    ensures
        match res {
            Ok(out) => zlib_decompressed(data@) == Some(out@),
            Err(e) => e == Error::CorruptStream && zlib_decompressed(data@) is None,
        },
{
    match zlib_decode(data) {
        Ok(out) => Ok(out),
        Err(_) => Err(Error::CorruptStream),
    }
}

} // verus!
