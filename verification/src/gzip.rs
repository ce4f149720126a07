//! The compression wrapper: the raw codec composed with gzip stream
//! compression. The wrapper adds no framing of its own; compression errors
//! and codec errors surface through the same error type, distinguished by
//! kind.

use std::io::Read;
use std::io::Write;

use vstd::prelude::*;
use vstd::utf8::encode_utf8;

use crate::dec::sdec_doc;
use crate::enc::enc_doc;
use crate::error::Error;
use crate::value::{enc_ok_value, name_bytes, NbtValue, MAX_NAME};

verus! {

/// What gzip decompression yields on a byte string: `None` when the stream
/// is invalid or truncated. Decompression is a pure function of the
/// compressed bytes, fixed by the gzip format; this name stands for its
/// result.
pub uninterp spec fn gunzip(data: Seq<u8>) -> Option<Seq<u8>>;

/// Relies on flate2's `write::GzEncoder` (with `read::GzDecoder` as its
/// documented inverse): compressing a byte string produces a gzip stream
/// that decompresses back to exactly that byte string. The sink is a `Vec`,
/// which cannot fail to write, so `finish` cannot fail here.
#[verifier::external_body]
fn gzip_compress(data: &[u8]) -> (r: Vec<u8>)
    ensures
        gunzip(r@) == Some(data@),
{
    let mut enc = flate2::write::GzEncoder::new(Vec::new(), flate2::Compression::new(9));
    enc.write_all(data).unwrap();
    enc.finish().unwrap()
}

/// Relies on flate2's `read::GzDecoder`: reading it to the end yields the
/// decompressed bytes of a valid gzip stream, and fails on an invalid or
/// truncated one.
#[verifier::external_body]
fn gzip_decompress(data: &[u8]) -> (r: Option<Vec<u8>>)
    ensures
        match r {
            Some(out) => gunzip(data@) == Some(out@),
            None => gunzip(data@) is None,
        },
{
    let mut dec = flate2::read::GzDecoder::new(data);
    let mut out = Vec::new();
    match dec.read_to_end(&mut out) {
        Ok(_) => Some(out),
        Err(_) => None,
    }
}

impl NbtValue {
    /// Encodes the document `(name, self)` and runs it through gzip
    /// compression at the highest ratio. Succeeds exactly when
    /// [`Self::to_bytes`] does; the result decompresses to exactly the raw
    /// encoding.
    pub fn to_compressed_bytes(&self, name: &str) -> (r: Result<Vec<u8>, Error>)
        ensures
            match r {
                Ok(c) => encode_utf8(name@).len() <= MAX_NAME && enc_ok_value(self@) && gunzip(c@)
                    == Some(enc_doc(encode_utf8(name@), self@)),
                Err(e) => !(encode_utf8(name@).len() <= MAX_NAME && enc_ok_value(self@))
                    && e is Malformed,
            },
    {
        match self.to_bytes(name) {
            Ok(plain) => Ok(gzip_compress(plain.as_slice())),
            Err(e) => Err(e),
        }
    }

    /// Decompresses a gzip stream and decodes the one document inside. An
    /// invalid or truncated compression stream is a `CompressionError`;
    /// decompressed bytes that violate the tag grammar are `Malformed`.
    pub fn from_compressed_bytes(b: &[u8]) -> (r: Result<(String, NbtValue), Error>)
        ensures
            match r {
                Ok((n, v)) => gunzip(b@) matches Some(d) && sdec_doc(d) matches Some(t) && t.0
                    == name_bytes(n) && t.1 == v@,
                Err(e) => match gunzip(b@) {
                    Some(d) => sdec_doc(d) is None && e is Malformed,
                    None => e is CompressionError,
                },
            },
    {
        match gzip_decompress(b) {
            Some(plain) => Self::from_bytes(plain.as_slice()),
            None => Err(Error::CompressionError),
        }
    }
}

} // verus!
