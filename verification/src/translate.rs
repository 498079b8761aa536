//! Translating between the blocks of a BEN file and the staging form of the
//! same samples, without expanding the runs into assignment vectors.

use crate::ben32::{ben32_block, decode_ben32_line, parse_ben32, rle_to_ben32};
use crate::decode::{after_blocks, decode_ben_block, parse_block, parse_blocks};
use crate::encode::{ben_block, block_fits, block_of_runs, encode_ben_vec_from_rle};
use crate::error::{after_bytes, bytes_result, CodecError};
use crate::format::{has_magic, has_magic_header, magic, push_magic, MAGIC_LEN};
use vstd::prelude::*;
use vstd::slice::slice_subrange;

verus! {

/// The staging forms of the samples, one after the other.
pub open spec fn ben32_stream(blocks: Seq<Seq<(u16, u16)>>) -> Seq<u8>
    decreases blocks.len(),
{
    if blocks.len() == 0 {
        Seq::empty()
    } else {
        ben32_stream(blocks.drop_last()) + ben32_block(blocks.last())
    }
}

/// The staging form of the samples that the blocks of `bytes` hold, or why
/// the blocks cannot be read.
pub open spec fn ben32_of_ben(bytes: Seq<u8>) -> Result<Seq<u8>, CodecError> {
    match parse_blocks(bytes) {
        Err(e) => Err(e),
        Ok(blocks) => Ok(ben32_stream(blocks)),
    }
}

/// The blocks of the samples whose staging forms `bytes` hold one after the
/// other, or the first failure met on the way: a sample that cannot be read,
/// or one whose block would be too large.
pub open spec fn ben_of_ben32(bytes: Seq<u8>) -> Result<Seq<u8>, CodecError>
    decreases bytes.len(),
{
    if bytes.len() == 0 {
        Ok(Seq::empty())
    } else {
        match parse_ben32(bytes) {
            Err(e) => Err(e),
            Ok((runs, used)) => {
                if 0 < used <= bytes.len() {
                    match block_of_runs(runs) {
                        Err(e) => Err(e),
                        Ok(block) => after_bytes(block, ben_of_ben32(bytes.skip(used as int))),
                    }
                } else {
                    Err(CodecError::TruncatedStream)
                }
            },
        }
    }
}

/// Translates the blocks of a BEN file, given without the marker, into the
/// staging form of the same samples.
pub fn ben_to_ben32_lines(ben: &[u8]) -> (ben32: Result<Vec<u8>, CodecError>)
    ensures
        bytes_result(ben32) == ben32_of_ben(ben@),
{
    let mut out: Vec<u8> = Vec::new();
    let ghost mut blocks: Seq<Seq<(u16, u16)>> = Seq::empty();
    let mut pos: usize = 0;
    proof {
        assert(ben@.skip(0) == ben@);
        match parse_blocks(ben@) {
            Ok(rest) => {
                assert(blocks + rest == rest);
            },
            Err(e) => {},
        }
    }
    while pos < ben.len()
        invariant
            pos <= ben@.len(),
            parse_blocks(ben@) == after_blocks(blocks, parse_blocks(ben@.skip(pos as int))),
            out@ == ben32_stream(blocks),
        decreases ben@.len() - pos,
    {
        let ghost rest = ben@.skip(pos as int);
        match decode_ben_block(ben, pos) {
            Err(e) => {
                proof {
                    assert(parse_blocks(rest) == Err::<Seq<Seq<(u16, u16)>>, CodecError>(e));
                }
                return Err(e);
            },
            Ok((rle_vec, next)) => {
                let encoded = rle_to_ben32(&rle_vec);
                out.extend_from_slice(encoded.as_slice());
                proof {
                    let runs = rle_vec@;
                    assert(parse_block(rest) == Ok::<(Seq<(u16, u16)>, nat), CodecError>(
                        (runs, (next - pos) as nat),
                    ));
                    assert(rest.skip(next - pos) == ben@.skip(next as int));
                    let grown = blocks.push(runs);
                    match parse_blocks(ben@.skip(next as int)) {
                        Ok(more) => {
                            assert(blocks + (seq![runs] + more) == grown + more);
                        },
                        Err(e) => {},
                    }
                    assert(grown.drop_last() == blocks);
                    blocks = grown;
                }
                pos = next;
            },
        }
    }
    proof {
        assert(ben@.skip(pos as int).len() == 0);
        assert(blocks + Seq::<Seq<(u16, u16)>>::empty() == blocks);
    }
    Ok(out)
}

/// Translates the staging form of samples, given without the marker, into
/// the blocks of a BEN file; the widths of each block are those of its own
/// runs.
pub fn ben32_to_ben_lines(ben32: &[u8]) -> (ben: Result<Vec<u8>, CodecError>)
    ensures
        bytes_result(ben) == ben_of_ben32(ben32@),
{
    let mut out: Vec<u8> = Vec::new();
    let mut pos: usize = 0;
    proof {
        assert(ben32@.skip(0) == ben32@);
        match ben_of_ben32(ben32@) {
            Ok(rest) => {
                assert(out@ + rest == rest);
            },
            Err(e) => {},
        }
    }
    while pos < ben32.len()
        invariant
            pos <= ben32@.len(),
            ben_of_ben32(ben32@) == after_bytes(out@, ben_of_ben32(ben32@.skip(pos as int))),
        decreases ben32@.len() - pos,
    {
        let ghost rest = ben32@.skip(pos as int);
        let ghost written = out@;
        match decode_ben32_line(ben32, pos) {
            Err(e) => {
                return Err(e);
            },
            Ok((rle_vec, next)) => {
                if !block_fits(&rle_vec) {
                    return Err(CodecError::BlockTooLarge);
                }
                let ghost runs = rle_vec@;
                let encoded = encode_ben_vec_from_rle(rle_vec);
                out.extend_from_slice(encoded.as_slice());
                proof {
                    assert(rest.skip(next - pos) == ben32@.skip(next as int));
                    assert(rest.len() > 0);
                    assert(parse_ben32(rest) == Ok::<(Seq<(u16, u16)>, nat), CodecError>(
                        (runs, (next - pos) as nat),
                    ));
                    assert(block_of_runs(runs) == Ok::<Seq<u8>, CodecError>(ben_block(runs)));
                    assert(ben_of_ben32(rest) == after_bytes(
                        ben_block(runs),
                        ben_of_ben32(ben32@.skip(next as int)),
                    ));
                    assert(out@ == written + ben_block(runs));
                    match ben_of_ben32(ben32@.skip(next as int)) {
                        Ok(more) => {
                            assert(written + (ben_block(runs) + more) == (written + ben_block(
                                runs,
                            )) + more);
                        },
                        Err(e) => {},
                    }
                }
                pos = next;
            },
        }
    }
    proof {
        assert(ben32@.skip(pos as int).len() == 0);
        assert(out@ + Seq::<u8>::empty() == out@);
    }
    Ok(out)
}

/// What an XBEN file of the samples of a BEN file holds before compression:
/// the marker, then the staging form of the file's blocks. A file that does
/// not open with the marker is refused before any block is read.
pub open spec fn ben32_file_of_ben(ben: Seq<u8>) -> Result<Seq<u8>, CodecError> {
    if !has_magic(ben) {
        Err(CodecError::Format)
    } else {
        after_bytes(magic(), ben32_of_ben(ben.skip(17)))
    }
}

/// The BEN file of the samples that a decompressed XBEN stream holds: the
/// marker, then the blocks of the samples. A stream that does not open with
/// the marker is refused before any sample is read.
pub open spec fn ben_file_of_ben32(ben32: Seq<u8>) -> Result<Seq<u8>, CodecError> {
    if !has_magic(ben32) {
        Err(CodecError::Format)
    } else {
        after_bytes(magic(), ben_of_ben32(ben32.skip(17)))
    }
}

/// Translates a BEN file into what the XBEN file of the same samples holds
/// before compression.
pub fn ben_file_to_ben32(ben: &[u8]) -> (ben32: Result<Vec<u8>, CodecError>)
    ensures
        bytes_result(ben32) == ben32_file_of_ben(ben@),
{
    if !has_magic_header(ben) {
        return Err(CodecError::Format);
    }
    let body = slice_subrange(ben, MAGIC_LEN, ben.len());
    proof {
        assert(body@ == ben@.skip(17));
    }
    match ben_to_ben32_lines(body) {
        Err(e) => Err(e),
        Ok(lines) => {
            let mut out: Vec<u8> = Vec::new();
            push_magic(&mut out);
            out.extend_from_slice(lines.as_slice());
            proof {
                assert(out@ =~= magic() + lines@);
            }
            Ok(out)
        },
    }
}

/// Translates a decompressed XBEN stream into the BEN file of the same
/// samples.
pub fn ben32_file_to_ben(ben32: &[u8]) -> (ben: Result<Vec<u8>, CodecError>)
    ensures
        bytes_result(ben) == ben_file_of_ben32(ben32@),
{
    if !has_magic_header(ben32) {
        return Err(CodecError::Format);
    }
    let body = slice_subrange(ben32, MAGIC_LEN, ben32.len());
    proof {
        assert(body@ == ben32@.skip(17));
    }
    match ben32_to_ben_lines(body) {
        Err(e) => Err(e),
        Ok(blocks) => {
            let mut out: Vec<u8> = Vec::new();
            push_magic(&mut out);
            out.extend_from_slice(blocks.as_slice());
            proof {
                assert(out@ =~= magic() + blocks@);
            }
            Ok(out)
        },
    }
}

} // verus!
