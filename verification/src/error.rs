//! The ways in which encoding or decoding can fail.

use vstd::prelude::*;

verus! {

/// Why an input could not be encoded or decoded.
#[derive(Debug, Clone, Copy, PartialEq, Eq, Structural)]
pub enum CodecError {
    /// A line is not valid JSON, has no `assignment` array, or the array holds
    /// something other than a non-negative integer.
    Parse,
    /// The magic header is missing or wrong, or a block declares a field
    /// wider than sixteen bits.
    Format,
    /// The input ends in the middle of a block or of a 32-bit word.
    TruncatedStream,
    /// The compressor or the decompressor reported a failure.
    Compression,
    /// A sample has more runs than the 32-bit length field of a block can
    /// describe.
    BlockTooLarge,
}

impl CodecError {
    /// A short description of the failure.
    pub fn message(&self) -> (r: &'static str)
        ensures
            r@ == self.spec_message(),
    {
        match self {
            CodecError::Parse => "a line does not hold a JSON assignment vector",
            CodecError::Format => "invalid file format",
            CodecError::TruncatedStream => "the input ends inside a record",
            CodecError::Compression => "the compressor failed",
            CodecError::BlockTooLarge => "a sample has too many runs for one block",
        }
    }

    /// The text that `message` returns.
    pub open spec fn spec_message(&self) -> Seq<char> {
        match self {
            CodecError::Parse => "a line does not hold a JSON assignment vector"@,
            CodecError::Format => "invalid file format"@,
            CodecError::TruncatedStream => "the input ends inside a record"@,
            CodecError::Compression => "the compressor failed"@,
            CodecError::BlockTooLarge => "a sample has too many runs for one block"@,
        }
    }
}

/// The views of the bytes of a result.
pub open spec fn bytes_result(r: Result<Vec<u8>, CodecError>) -> Result<Seq<u8>, CodecError> {
    match r {
        Ok(bytes) => Ok(bytes@),
        Err(e) => Err(e),
    }
}

/// `first`, then what `rest` gives; the failure of `rest` where it fails.
pub open spec fn after_bytes(first: Seq<u8>, rest: Result<Seq<u8>, CodecError>) -> Result<
    Seq<u8>,
    CodecError,
> {
    match rest {
        Err(e) => Err(e),
        Ok(bytes) => Ok(first + bytes),
    }
}

} // verus!
