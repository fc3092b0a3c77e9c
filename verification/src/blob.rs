//! Blob objects: the contents of a file, compressed.

use crate::bytes::append;
use crate::error::Error;
use flate2::read::ZlibEncoder;
use flate2::Compression;
use std::io::Read;
use vstd::prelude::*;

verus! {

/// The error type of `std::io`, carried through without a look inside.
#[verifier::external_type_specification]
#[verifier::external_body]
pub struct ExIoError(std::io::Error);

/// What the `flate2` crate makes of `data` at its fastest level: the zlib
/// stream, or nothing where the encoder reports an error. The library does
/// not define it; it only relies on it being a function of the data.
pub uninterp spec fn zlib_fast(data: Seq<u8>) -> Option<Seq<u8>>;

/// Reads `data` to its end through `flate2::read::ZlibEncoder` at the level
/// `Compression::fast()`. Trusted: whether the encoder comes through and
/// what was read then depend on the data alone, as `zlib_fast` names it.
/// The reader is a slice, which reports no error of its own.
#[verifier::external_body]
fn compress_fast(data: &[u8]) -> (packed: Result<Vec<u8>, std::io::Error>)
    ensures
        match packed {
            Ok(out) => zlib_fast(data@) == Some(out@),
            Err(_) => zlib_fast(data@) is None,
        },
{
    let mut out = Vec::new();
    let mut encoder = ZlibEncoder::new(data, Compression::fast());
    match encoder.read_to_end(&mut out) {
        Ok(_) => Ok(out),
        Err(e) => Err(e),
    }
}

/// What every blob payload starts with: `blob` and a zero byte.
pub open spec fn blob_header() -> Seq<u8> {
    seq![0x62u8, 0x6c, 0x6f, 0x62, 0]
}

/// The payload of the blob object that holds the compressed stream
/// `packed`.
pub open spec fn blob_object(packed: Seq<u8>) -> Seq<u8> {
    blob_header() + packed
}

/// Puts the header of a blob object before a compressed stream.
pub fn frame_blob(packed: &[u8]) -> (payload: Vec<u8>)
    ensures
        payload@ == blob_object(packed@),
{
    let mut payload: Vec<u8> = Vec::new();
    payload.push(0x62);
    payload.push(0x6c);
    payload.push(0x6f);
    payload.push(0x62);
    payload.push(0);
    assert(payload@ =~= blob_header());
    append(&mut payload, packed);
    payload
}

/// What becomes of the outcome of the compression: the blob payload, or
/// `IoError`.
pub fn blob_from(packed: Result<Vec<u8>, std::io::Error>) -> (payload: Result<Vec<u8>, Error>)
    ensures
        match packed {
            Ok(stream) => payload is Ok && payload->Ok_0@ == blob_object(stream@),
            Err(_) => payload == Err::<Vec<u8>, Error>(Error::IoError),
        },
{
    match packed {
        Ok(stream) => Ok(frame_blob(stream.as_slice())),
        Err(_) => Err(Error::IoError),
    }
}

/// The payload of the blob object for a file with the given contents:
/// the header and the contents compressed. Fails with `IoError` where the
/// compression does.
pub fn blob_payload(contents: &[u8]) -> (payload: Result<Vec<u8>, Error>)
    ensures
        match zlib_fast(contents@) {
            Some(stream) => payload is Ok && payload->Ok_0@ == blob_object(stream),
            None => payload == Err::<Vec<u8>, Error>(Error::IoError),
        },
{
    blob_from(compress_fast(contents))
}

} // verus!
