//! Gzip compression of snapshot blobs, through the `flate2` crate.
//!
//! Compression is specified by the relation [`is_gz_of`]: a blob that
//! begins with a well-formed gzip member determines that member's payload,
//! and decompression recovers exactly those bytes. The level banding of
//! the snapshot store (1-3 fastest, 4-6 balanced, 7-9 smallest) is decided
//! in the verified chooser [`gzip_compress`].

use vstd::prelude::*;

use std::io::Read;
use std::io::Write;

verus! {

/// `blob` begins with one well-formed gzip member whose decompressed
/// payload is `data`. A compressor's output is exactly such a member, and
/// deflate streams are self-terminating, so the payload is a function of
/// the blob.
pub uninterp spec fn is_gz_of(blob: Seq<u8>, data: Seq<u8>) -> bool;

/// Compresses at the level band the requested level falls in: levels up to
/// 3 take the fastest setting, 7 to 9 the smallest, anything else the
/// balanced default.
pub fn gzip_compress(data: &Vec<u8>, level: u32) -> (blob: Vec<u8>)
    ensures
        is_gz_of(blob@, data@),
{
    if level <= 3 {
        gzip_fast(data)
    } else if 7 <= level && level <= 9 {
        gzip_best(data)
    } else {
        gzip_default(data)
    }
}

/// Relies on `flate2::write::GzEncoder` at `Compression::fast`: writing to
/// a byte sink cannot fail, and the finished stream is one gzip member of
/// exactly the written bytes.
#[verifier::external_body]
fn gzip_fast(data: &Vec<u8>) -> (blob: Vec<u8>)
    ensures
        is_gz_of(blob@, data@),
{
    let mut encoder = flate2::write::GzEncoder::new(Vec::new(), flate2::Compression::fast());
    if encoder.write_all(data.as_slice()).is_err() {
        return Vec::new();
    }
    encoder.finish().unwrap_or_default()
}

/// Relies on `flate2::write::GzEncoder` at `Compression::default`, as
/// [`gzip_fast`] does.
#[verifier::external_body]
fn gzip_default(data: &Vec<u8>) -> (blob: Vec<u8>)
    ensures
        is_gz_of(blob@, data@),
{
    let mut encoder = flate2::write::GzEncoder::new(Vec::new(), flate2::Compression::default());
    if encoder.write_all(data.as_slice()).is_err() {
        return Vec::new();
    }
    encoder.finish().unwrap_or_default()
}

/// Relies on `flate2::write::GzEncoder` at `Compression::best`, as
/// [`gzip_fast`] does.
#[verifier::external_body]
fn gzip_best(data: &Vec<u8>) -> (blob: Vec<u8>)
    ensures
        is_gz_of(blob@, data@),
{
    let mut encoder = flate2::write::GzEncoder::new(Vec::new(), flate2::Compression::best());
    if encoder.write_all(data.as_slice()).is_err() {
        return Vec::new();
    }
    encoder.finish().unwrap_or_default()
}

/// Relies on `flate2::read::GzDecoder`: reading to the end succeeds
/// exactly when the blob begins with a well-formed member (the trailing
/// CRC and length are checked), and then yields exactly its payload.
#[verifier::external_body]
pub fn gzip_decompress(blob: &Vec<u8>) -> (r: Option<Vec<u8>>)
    ensures
        r is None ==> forall|data: Seq<u8>| !(#[trigger] is_gz_of(blob@, data)),
        r matches Some(out) ==> is_gz_of(blob@, out@),
        r matches Some(out) ==> forall|data: Seq<u8>|
            #[trigger] is_gz_of(blob@, data) ==> out@ == data,
{
    let mut decoder = flate2::read::GzDecoder::new(blob.as_slice());
    let mut out: Vec<u8> = Vec::new();
    match decoder.read_to_end(&mut out) {
        Ok(_) => Some(out),
        Err(_) => None,
    }
}

} // verus!
