//! Zlib (de)compression helpers, used for optional packet compression.
//!
//! The SOE protocol compresses the wrapped packet data using zlib at the default
//! compression level when compression is negotiated for a session.

use std::io::{Read, Write};

use vstd::prelude::*;

use flate2::read::ZlibDecoder;
use flate2::write::ZlibEncoder;
use flate2::Compression;

use crate::error::Error;

verus! {

/// What zlib compresses `data` to at the default level; none where it fails.
pub uninterp spec fn compressed(data: Seq<u8>) -> Option<Seq<u8>>;

/// What zlib decompresses `data` to; none where `data` is no zlib stream.
pub uninterp spec fn decompressed(data: Seq<u8>) -> Option<Seq<u8>>;

/// Writes all of `data` into a `flate2::write::ZlibEncoder` at the default level, and
/// finishes it. The stream that comes of it depends on `data` alone ([`compressed`]),
/// and decompressing it gives `data` back. What bytes it is made of is left unsaid.
#[verifier::external_body]
fn zlib_compress(data: &[u8]) -> (r: Result<Vec<u8>, std::io::Error>)
    ensures
        match compressed(data@) {
            Some(stream) => r is Ok && r->Ok_0@ == stream,
            None => r is Err,
        },
        r matches Ok(stream) ==> decompressed(stream@) == Some(data@),
{
    let mut encoder = ZlibEncoder::new(Vec::new(), Compression::default());
    encoder.write_all(data)?;
    encoder.finish()
}

/// Reads a `flate2::read::ZlibDecoder` over `data` to its end. The result depends on
/// `data` alone ([`decompressed`]). Which inputs fail, and how, is left unsaid.
#[verifier::external_body]
fn zlib_decompress(data: &[u8]) -> (r: Result<Vec<u8>, std::io::Error>)
    ensures
        match decompressed(data@) {
            Some(plain) => r is Ok && r->Ok_0@ == plain,
            None => r is Err,
        },
{
    let mut plain = Vec::new();
    ZlibDecoder::new(data).read_to_end(&mut plain)?;
    Ok(plain)
}

/// Compresses `data` using zlib at the default compression level. The result, if there is
/// one, decompresses to `data`.
pub fn deflate(data: &[u8]) -> (r: Result<Vec<u8>, Error>)
    ensures
        match compressed(data@) {
            Some(stream) => r is Ok && r->Ok_0@ == stream,
            None => r matches Err(Error::Zlib(_)),
        },
        r matches Ok(stream) ==> decompressed(stream@) == Some(data@),
{
    match zlib_compress(data) {
        Ok(stream) => Ok(stream),
        Err(e) => Err(Error::Zlib(e)),
    }
}

/// Decompresses zlib-compressed `data`.
pub fn inflate(data: &[u8]) -> (r: Result<Vec<u8>, Error>)
    ensures
        match decompressed(data@) {
            Some(plain) => r is Ok && r->Ok_0@ == plain,
            None => r matches Err(Error::Zlib(_)),
        },
{
    match zlib_decompress(data) {
        Ok(plain) => Ok(plain),
        Err(e) => Err(Error::Zlib(e)),
    }
}

} // verus!
