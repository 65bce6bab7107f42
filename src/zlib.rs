use std::io::{Read, Write};

use flate2::read::ZlibDecoder;
use flate2::write::ZlibEncoder;
use flate2::Compression;
use vstd::prelude::*;

verus! {

/// What a zlib decoder reads from the bytes, or `None` when it reports an
/// error.
pub uninterp spec fn zlib_inflated(data: Seq<u8>) -> Option<Seq<u8>>;

/// The zlib stream that compresses the bytes at the default level.
pub uninterp spec fn zlib_deflated(data: Seq<u8>) -> Seq<u8>;

/// Relies on `flate2::read::ZlibDecoder` read to the end: the result depends
/// on the bytes alone.
#[verifier::external_body]
pub(crate) fn inflate(data: &[u8]) -> (r: Result<Vec<u8>, std::io::Error>)
    ensures
        r is Ok <==> zlib_inflated(data@) is Some,
        r matches Ok(b) ==> b@ == zlib_inflated(data@)->Some_0,
{
    let mut out = Vec::new();
    ZlibDecoder::new(data).read_to_end(&mut out).map(|_| out)
}

/// Relies on `flate2::write::ZlibEncoder` at `Compression::default()`
/// writing into a `Vec`, which fails only on an internal stream error: the
/// stream depends on the bytes alone, and a `ZlibDecoder` restores them.
#[verifier::external_body]
pub(crate) fn deflate(data: &[u8]) -> (r: Result<Vec<u8>, std::io::Error>)
    ensures
        r is Ok,
        r matches Ok(b) ==> b@ == zlib_deflated(data@) && zlib_inflated(b@) == Some(data@),
{
    let mut encoder = ZlibEncoder::new(Vec::new(), Compression::default());
    match encoder.write_all(data) {
        Ok(()) => encoder.finish(),
        Err(e) => Err(e),
    }
}

} // verus!
