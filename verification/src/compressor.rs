use vstd::prelude::*;
use std::io::{Read, Write};
use crate::errors::ErrorType;

verus! {

/// The zlib stream that `flate2` writes for some bytes at the default level.
pub uninterp spec fn zlib_deflate(data: Seq<u8>) -> Seq<u8>;

/// What `flate2` reads back from a zlib stream: the decompressed bytes, or
/// `None` where the stream is not one it can read.
pub uninterp spec fn zlib_inflate(data: Seq<u8>) -> Option<Seq<u8>>;

/// `flate2::write::ZlibEncoder` at the default level, written to the end and
/// finished. Trusted: it succeeds (the encoder writes into a `Vec`, which
/// takes every byte, and a fresh stream at the default level reports no
/// error), the output is the stream named `zlib_deflate` of the input, and
/// decompressing it gives the input back.
#[verifier::external_body]
fn deflate_bytes(content: &[u8]) -> (r: Result<Vec<u8>, std::io::Error>)
    ensures
        r is Ok,
        r matches Ok(v) ==> v@ == zlib_deflate(content@) && zlib_inflate(v@) == Some(content@),
{
    let mut encoder = flate2::write::ZlibEncoder::new(Vec::new(), flate2::Compression::default());
    encoder.write_all(content)?;
    encoder.finish()
}

/// `flate2::read::ZlibDecoder` read to the end. Trusted: it succeeds exactly
/// where `zlib_inflate` names an output, and gives that output.
#[verifier::external_body]
fn inflate_bytes(data: &[u8]) -> (r: Result<Vec<u8>, std::io::Error>)
    ensures
        match zlib_inflate(data@) {
            Some(v) => r matches Ok(x) && x@ == v,
            None => r is Err,
        },
{
    let mut buffer = Vec::new();
    let mut decoder = flate2::read::ZlibDecoder::new(data);
    decoder.read_to_end(&mut buffer)?;
    Ok(buffer)
}

/// Compression of stored objects with zlib.
pub struct Compressor;

impl Compressor {
    /// The zlib stream of some bytes.
    pub fn compress(content: Vec<u8>) -> (r: Result<Vec<u8>, ErrorType>)
        ensures
            r is Ok,
            r matches Ok(v) ==> v@ == zlib_deflate(content@) && zlib_inflate(v@) == Some(content@),
            r matches Err(e) ==> e is IOError,
    {
        match deflate_bytes(content.as_slice()) {
            Ok(v) => Ok(v),
            Err(e) => Err(ErrorType::IOError(e)),
        }
    }

    /// The bytes a zlib stream holds; an error where it is not a stream.
    pub fn uncompress(readable: &[u8]) -> (r: Result<Vec<u8>, ErrorType>)
        ensures
            match zlib_inflate(readable@) {
                Some(v) => r matches Ok(x) && x@ == v,
                None => r matches Err(e) && e is IOError,
            },
    {
        match inflate_bytes(readable) {
            Ok(v) => Ok(v),
            Err(e) => Err(ErrorType::IOError(e)),
        }
    }
}


/// What `flate2::bufread::ZlibDecoder` gives when exactly `size` bytes are
/// read from the zlib stream at the start of `data`: those bytes and how many
/// bytes of `data` the decoder took; `None` where it fails. A function of
/// the bytes and the size alone.
pub uninterp spec fn zlib_read_prefix(data: Seq<u8>, size: nat) -> Option<(Seq<u8>, nat)>;

/// `flate2::bufread::ZlibDecoder` over the bytes (through a cursor), read
/// with `read_exact` into a buffer of `size` bytes. Trusted: it succeeds
/// exactly where `zlib_read_prefix` names an outcome and gives it; the
/// buffer holds `size` bytes and the decoder took no more bytes than there
/// are.
#[verifier::external_body]
pub(crate) fn inflate_prefix(data: &[u8], size: usize) -> (r: Result<(Vec<u8>, usize), std::io::Error>)
    ensures
        match zlib_read_prefix(data@, size as nat) {
            Some((out, used)) => r matches Ok((o, u)) && o@ == out && u as nat == used,
            None => r is Err,
        },
        r matches Ok((o, u)) ==> o@.len() == size && u <= data@.len(),
{
    let mut cursor = std::io::Cursor::new(data);
    let mut out = vec![0u8; size];
    flate2::bufread::ZlibDecoder::new(&mut cursor).read_exact(&mut out)?;
    Ok((out, cursor.position() as usize))
}

} // verus!
