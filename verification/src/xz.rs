//! LZMA2 compression of byte buffers, done by the `xz2` crate.

use crate::error::CodecError;
use std::io::{Read, Write};
use vstd::prelude::*;

verus! {

/// The compression level that XBEN files are written with.
pub const XZ_LEVEL: u32 = 9;

/// `std::io::Error`, in which the `xz2` encoder and decoder report a failure.
/// Nothing inside it is looked at.
#[verifier::external_type_specification]
#[verifier::external_body]
pub struct ExIoError(std::io::Error);

/// The xz stream that `xz2` writes for `data` at compression level `level`.
pub uninterp spec fn xz_encoded(data: Seq<u8>, level: u32) -> Seq<u8>;

/// The bytes that `xz2` reads out of the xz stream at the head of `data`.
pub uninterp spec fn xz_decoded(data: Seq<u8>) -> Seq<u8>;

/// Compresses `data` into one xz stream with a CRC-64 check.
///
/// Calls `xz2::stream::Stream::new_easy_encoder`, `xz2::write::XzEncoder::new_stream`,
/// `write_all` and `finish`. Nothing is proved of it. It is taken on trust
/// that, where the encoder reports no failure, the bytes it hands back depend
/// on `data` and `level` alone. When it fails is not stated: an encoder that
/// cannot get memory fails on any input.
#[verifier::external_body]
pub(crate) fn lzma_encode(data: &[u8], level: u32) -> (stream: Result<Vec<u8>, std::io::Error>)
    ensures
        stream matches Ok(bytes) ==> bytes@ == xz_encoded(data@, level),
{
    let coder = xz2::stream::Stream::new_easy_encoder(level, xz2::stream::Check::Crc64)?;
    let mut encoder = xz2::write::XzEncoder::new_stream(Vec::new(), coder);
    encoder.write_all(data)?;
    encoder.finish()
}

/// Decompresses the xz stream at the head of `data`.
///
/// Calls `xz2::stream::Stream::new_stream_decoder`, `xz2::read::XzDecoder::new_stream`
/// and `read_to_end`. Nothing is proved of it. It is taken on trust that,
/// where the decoder reports no failure, the bytes it hands back depend on
/// `data` alone. A stream that is corrupt or ends early is a failure; so is a
/// decoder that cannot get memory.
#[verifier::external_body]
pub(crate) fn lzma_decode(data: &[u8]) -> (plain: Result<Vec<u8>, std::io::Error>)
    ensures
        plain matches Ok(bytes) ==> bytes@ == xz_decoded(data@),
{
    let coder = xz2::stream::Stream::new_stream_decoder(u64::MAX, 0)?;
    let mut decoder = xz2::read::XzDecoder::new_stream(data, coder);
    let mut bytes = Vec::new();
    decoder.read_to_end(&mut bytes)?;
    Ok(bytes)
}

/// What compressing gives: the stream of `data` at the level of XBEN files,
/// or a compression failure.
pub open spec fn compressed(data: Seq<u8>, r: Result<Seq<u8>, CodecError>) -> bool {
    r == Ok::<Seq<u8>, CodecError>(xz_encoded(data, XZ_LEVEL)) || r == Err::<Seq<u8>, CodecError>(
        CodecError::Compression,
    )
}

/// What decompressing gives: the bytes in the stream `data`, or a
/// compression failure.
pub open spec fn decompressed(data: Seq<u8>, r: Result<Seq<u8>, CodecError>) -> bool {
    r == Ok::<Seq<u8>, CodecError>(xz_decoded(data)) || r == Err::<Seq<u8>, CodecError>(
        CodecError::Compression,
    )
}

} // verus!
