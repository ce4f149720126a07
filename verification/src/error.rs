use vstd::prelude::*;

verus! {

#[verifier::external_type_specification]
#[verifier::external_body]
pub struct ExIoError(std::io::Error);

/// Error taxonomy of the codec.
///
/// Every failure aborts the whole encode or decode call; no partial result is
/// ever produced and nothing is retried.
#[derive(Debug)]
pub enum Error {
    /// Reserved placeholder kind.
    Unit,
    /// The input violated the wire grammar: truncated data, an out-of-range
    /// tag byte, an invalid UTF-8 string, or a negative length; on encode, a
    /// value whose string or element count does not fit the wire format's
    /// length fields. The payload is an opaque marker locating the structural
    /// rule that failed (a byte position, capped at `u32::MAX`), meant for
    /// diagnostics only.
    Malformed(u32),
    /// Reserved for higher-level textual-format adapters.
    Custom(String),
    /// An underlying byte source or sink failed; wraps the transport error.
    FileError(std::io::Error),
    /// The compression or decompression stream was invalid or truncated.
    CompressionError,
}

/// Diagnostic marker for a grammar failure noticed at byte position `pos`.
pub(crate) fn loc_of(pos: usize) -> (r: u32) {
    if pos > 0xffff_ffff {
        0xffff_ffff
    } else {
        pos as u32
    }
}

} // verus!
