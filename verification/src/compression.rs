//! Gzip compression for stored byte columns. The codec itself is flate2's;
//! its contract is that decompression inverts compression, which the public
//! round-trip function below turns into a verified statement.

use std::io::{Read, Write};
use vstd::prelude::*;

verus! {

/// What flate2's gzip encoder (default level) produces for a byte sequence.
pub uninterp spec fn gzip_of(data: Seq<u8>) -> Seq<u8>;

/// Relies on `flate2::write::GzEncoder` at the default level: the output is
/// a function of the input bytes alone, and writing into a `Vec` cannot
/// fail.
#[verifier::external_body]
fn gzip_compress(data: &[u8]) -> (r: Vec<u8>)
    ensures
        r@ == gzip_of(data@),
{
    let mut encoder = flate2::write::GzEncoder::new(Vec::new(), flate2::Compression::default());
    encoder.write_all(data).expect("writing to a Vec is infallible");
    encoder.finish().expect("finishing into a Vec is infallible")
}

/// Relies on `flate2::read::GzDecoder`: decompression inverts compression,
/// so a compressed stream decodes to exactly the bytes that produced it.
#[verifier::external_body]
fn gzip_decompress(data: &[u8]) -> (r: Result<Vec<u8>, ()>)
    ensures
        r is Ok <== exists|b: Seq<u8>| data@ == gzip_of(b),
        r matches Ok(v) ==> forall|b: Seq<u8>| data@ == gzip_of(b) ==> v@ == b,
{
    let mut decoder = flate2::read::GzDecoder::new(data);
    let mut out = Vec::new();
    match decoder.read_to_end(&mut out) {
        Ok(_) => Ok(out),
        Err(_) => Err(()),
    }
}

/// Gzip-compresses a byte column before it is stored.
pub fn compress(data: &[u8]) -> (r: Result<Vec<u8>, ()>)
    ensures
        r matches Ok(v) && v@ == gzip_of(data@),
{
    Ok(gzip_compress(data))
}

/// Decompresses a stored byte column; on anything that `compress` produced
/// it returns the bytes that were compressed.
pub fn decompress(compressed_data: &[u8]) -> (r: Result<Vec<u8>, ()>)
    ensures
        (exists|b: Seq<u8>| compressed_data@ == gzip_of(b)) ==> r is Ok,
        r matches Ok(v) ==> forall|b: Seq<u8>| compressed_data@ == gzip_of(b) ==> v@ == b,
{
    gzip_decompress(compressed_data)
}

/// Law: `decompress(compress(b)) == b` for any byte sequence `b`.
pub fn gzip_round_trip(data: &Vec<u8>) -> (r: Vec<u8>)
    ensures
        r@ == data@,
{
    let packed = match compress(data.as_slice()) {
        Ok(v) => v,
        Err(()) => {
            return vstd::pervasive::unreached();
        },
    };
    match decompress(packed.as_slice()) {
        Ok(v) => {
            assert(v@ == data@);
            v
        },
        Err(()) => {
            assert(false);
            vstd::pervasive::unreached()
        },
    }
}

} // verus!
