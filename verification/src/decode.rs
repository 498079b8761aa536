//! Decoding BEN blocks and files back into runs and assignment vectors.

use crate::bitpack::BitUnpacker;
use crate::bitstream::{be_value, bits_at, lemma_pow2_monotone, lemma_pow2_sum, read_u32_be};
use crate::error::{bytes_result, CodecError};
use crate::translate::{ben32_file_to_ben, ben_file_of_ben32};
use crate::xz::{decompressed, lzma_decode, xz_decoded};
use crate::format::{has_magic, has_magic_header, MAGIC_LEN};
use crate::utils::{expand, rle_to_vec, runs_nonempty};
use vstd::arithmetic::div_mod::{lemma_fundamental_div_mod_converse, lemma_mod_bound};
use vstd::arithmetic::power2::{lemma2_to64, pow2};
use vstd::prelude::*;
use vstd::slice::slice_subrange;

verus! {

/// The value and the length that field pair `k` of a payload holds, where a
/// value takes `vb` bits and a length `lb` bits.
pub open spec fn run_at(payload: Seq<u8>, vb: nat, lb: nat, k: nat) -> (nat, nat) {
    (bits_at(payload, k * (vb + lb), vb), bits_at(payload, k * (vb + lb) + vb, lb))
}

/// The number of whole field pairs in a payload. A length of no bits can
/// describe no run, so a payload of such pairs holds none.
pub open spec fn field_count(payload: Seq<u8>, vb: nat, lb: nat) -> nat {
    if lb == 0 {
        0
    } else {
        (8 * payload.len()) / (vb + lb)
    }
}

/// The runs among the first `k` field pairs of a payload: every pair whose
/// length is not zero, in order. A pair of length zero is padding.
pub open spec fn unpacked_prefix(payload: Seq<u8>, vb: nat, lb: nat, k: nat) -> Seq<(u16, u16)>
    decreases k,
{
    if k == 0 {
        Seq::empty()
    } else {
        let before = unpacked_prefix(payload, vb, lb, (k - 1) as nat);
        let pair = run_at(payload, vb, lb, (k - 1) as nat);
        if pair.1 == 0 {
            before
        } else {
            before.push((pair.0 as u16, pair.1 as u16))
        }
    }
}

/// The runs that a payload holds.
pub open spec fn unpacked_runs(payload: Seq<u8>, vb: nat, lb: nat) -> Seq<(u16, u16)> {
    unpacked_prefix(payload, vb, lb, field_count(payload, vb, lb))
}

/// Every run unpacked from a payload covers at least one node.
pub proof fn lemma_unpacked_nonempty(payload: Seq<u8>, vb: nat, lb: nat, k: nat)
    requires
        lb <= 16,
    ensures
        runs_nonempty(unpacked_prefix(payload, vb, lb, k)),
    decreases k,
{
    if k > 0 {
        lemma_unpacked_nonempty(payload, vb, lb, (k - 1) as nat);
        let pair = run_at(payload, vb, lb, (k - 1) as nat);
        let above = be_value(payload) / pow2(
            (8 * payload.len() - (k - 1) * (vb + lb) - vb - lb) as nat,
        );
        assert(pair.1 < pow2(lb)) by {
            lemma_pow2_sum(lb, 0);
            lemma_mod_bound(above as int, pow2(lb) as int);
        }
        lemma2_to64();
        lemma_pow2_monotone(lb, 16);
    }
}

/// Unpacks the runs of a payload whose values take `max_val_bits` bits and
/// whose lengths take `max_len_bits` bits.
///
/// The payload is read up to its last whole field pair; what follows, and
/// every pair of length zero, is padding.
pub fn decode_ben_line(payload: &[u8], max_val_bits: u8, max_len_bits: u8) -> (rle_vec: Vec<
    (u16, u16),
>)
    requires
        max_val_bits <= 16,
        max_len_bits <= 16,
    ensures
        rle_vec@ == unpacked_runs(payload@, max_val_bits as nat, max_len_bits as nat),
        runs_nonempty(rle_vec@),
{
    let mut rle_vec: Vec<(u16, u16)> = Vec::new();
    let ghost vb = max_val_bits as nat;
    let ghost lb = max_len_bits as nat;
    let ghost total = 8 * payload@.len();
    if max_len_bits == 0 {
        return rle_vec;
    }
    let mut unpacker = BitUnpacker::new(payload);
    let ghost mut k: nat = 0;
    let mut done = false;
    proof {
        assert(0 * (vb + lb) == 0) by (nonlinear_arith);
    }
    while !done
        invariant
            unpacker.wf(),
            unpacker.source() == payload@,
            vb == max_val_bits,
            lb == max_len_bits,
            vb <= 16,
            1 <= lb <= 16,
            total == 8 * payload@.len(),
            k * (vb + lb) <= total,
            !done ==> unpacker.position() == k * (vb + lb),
            done ==> k == field_count(payload@, vb, lb),
            rle_vec@ == unpacked_prefix(payload@, vb, lb, k),
        decreases
                if done {
                    0
                } else {
                    total - unpacker.position() + 1
                },
    {
        proof {
            assert((k + 1) * (vb + lb) == k * (vb + lb) + vb + lb) by (nonlinear_arith);
        }
        match unpacker.take(max_val_bits) {
            None => {
                done = true;
            },
            Some(val) => {
                match unpacker.take(max_len_bits) {
                    None => {
                        done = true;
                    },
                    Some(len) => {
                        if len != 0 {
                            rle_vec.push((val, len));
                        }
                        proof {
                            assert(run_at(payload@, vb, lb, k) == (val as nat, len as nat));
                            k = k + 1;
                        }
                    },
                }
            },
        }
        proof {
            if done {
                let w = (vb + lb) as int;
                lemma_fundamental_div_mod_converse(
                    total as int,
                    w,
                    k as int,
                    total - k * (vb + lb),
                );
            }
        }
    }
    proof {
        lemma_unpacked_nonempty(payload@, vb, lb, k);
    }
    rle_vec
}

/// One block at the head of `bytes`: its runs and its size in bytes.
///
/// Fewer than six bytes cannot hold a header; a width above sixteen bits is
/// no width of a 16-bit field; and the payload must be there in full.
pub open spec fn parse_block(bytes: Seq<u8>) -> Result<(Seq<(u16, u16)>, nat), CodecError> {
    if bytes.len() < 6 {
        Err(CodecError::TruncatedStream)
    } else if bytes[0] > 16 || bytes[1] > 16 {
        Err(CodecError::Format)
    } else {
        let n = be_value(bytes.subrange(2, 6));
        if bytes.len() < 6 + n {
            Err(CodecError::TruncatedStream)
        } else {
            Ok((unpacked_runs(bytes.subrange(6, 6 + n as int), bytes[0] as nat, bytes[1] as nat), 6 + n))
        }
    }
}

/// The runs of every block of `bytes`, which holds blocks one after the other
/// and nothing else; or the failure of the first block that cannot be read.
pub open spec fn parse_blocks(bytes: Seq<u8>) -> Result<Seq<Seq<(u16, u16)>>, CodecError>
    decreases bytes.len(),
{
    if bytes.len() == 0 {
        Ok(Seq::empty())
    } else {
        match parse_block(bytes) {
            Err(e) => Err(e),
            Ok((runs, used)) => {
                if 0 < used <= bytes.len() {
                    match parse_blocks(bytes.skip(used as int)) {
                        Err(e) => Err(e),
                        Ok(rest) => Ok(seq![runs] + rest),
                    }
                } else {
                    Err(CodecError::TruncatedStream)
                }
            },
        }
    }
}

/// The assignment vectors that the runs of each block stand for.
pub open spec fn expand_all(blocks: Seq<Seq<(u16, u16)>>) -> Seq<Seq<u16>> {
    Seq::new(blocks.len(), |i: int| expand(blocks[i]))
}

/// The assignment vectors of a BEN file, or why it cannot be read: a file
/// that does not open with the marker fails before any block is looked at.
pub open spec fn decoded_ben(bytes: Seq<u8>) -> Result<Seq<Seq<u16>>, CodecError> {
    if !has_magic(bytes) {
        Err(CodecError::Format)
    } else {
        match parse_blocks(bytes.skip(17)) {
            Err(e) => Err(e),
            Ok(blocks) => Ok(expand_all(blocks)),
        }
    }
}

/// The contents of each vector of a list.
pub open spec fn views(samples: Seq<Vec<u16>>) -> Seq<Seq<u16>> {
    Seq::new(samples.len(), |i: int| samples[i]@)
}

/// What is read where `first` blocks were read already and `rest` is what
/// reading the remainder gives.
pub open spec fn after_blocks(
    first: Seq<Seq<(u16, u16)>>,
    rest: Result<Seq<Seq<(u16, u16)>>, CodecError>,
) -> Result<Seq<Seq<(u16, u16)>>, CodecError> {
    match rest {
        Err(e) => Err(e),
        Ok(blocks) => Ok(first + blocks),
    }
}

/// Reads the block that starts at `pos`: its runs, and where the next block
/// starts.
pub fn decode_ben_block(data: &[u8], pos: usize) -> (block: Result<
    (Vec<(u16, u16)>, usize),
    CodecError,
>)
    requires
        pos <= data@.len(),
    ensures
        match block {
            Ok((rle_vec, next)) => {
                &&& pos < next <= data@.len()
                &&& runs_nonempty(rle_vec@)
                &&& parse_block(data@.skip(pos as int)) == Ok::<
                    (Seq<(u16, u16)>, nat),
                    CodecError,
                >((rle_vec@, (next - pos) as nat))
            },
            Err(e) => parse_block(data@.skip(pos as int)) == Err::<
                (Seq<(u16, u16)>, nat),
                CodecError,
            >(e),
        },
{
    let ghost bytes = data@.skip(pos as int);
    if data.len() - pos < 6 {
        return Err(CodecError::TruncatedStream);
    }
    let max_val_bits: u8 = data[pos];
    let max_len_bits: u8 = data[pos + 1];
    if max_val_bits > 16 || max_len_bits > 16 {
        return Err(CodecError::Format);
    }
    let n_bytes: u32 = read_u32_be(data, pos + 2);
    proof {
        assert(data@.subrange(pos + 2, pos + 6) == bytes.subrange(2, 6));
    }
    if data.len() - pos - 6 < n_bytes as usize {
        return Err(CodecError::TruncatedStream);
    }
    let start: usize = pos + 6;
    let next: usize = start + n_bytes as usize;
    let payload = slice_subrange(data, start, next);
    proof {
        assert(payload@ == bytes.subrange(6, 6 + n_bytes));
    }
    let rle_vec = decode_ben_line(payload, max_val_bits, max_len_bits);
    Ok((rle_vec, next))
}

/// The contents of the vectors of a result.
pub open spec fn samples_result(r: Result<Vec<Vec<u16>>, CodecError>) -> Result<
    Seq<Seq<u16>>,
    CodecError,
> {
    match r {
        Ok(vectors) => Ok(views(vectors@)),
        Err(e) => Err(e),
    }
}

/// Decodes a BEN file into the assignment vectors of its samples, in order.
pub fn decode_ben(ben: &[u8]) -> (samples: Result<Vec<Vec<u16>>, CodecError>)
    ensures
        samples_result(samples) == decoded_ben(ben@),
{
    if !has_magic_header(ben) {
        return Err(CodecError::Format);
    }
    let mut vectors: Vec<Vec<u16>> = Vec::new();
    let ghost mut blocks: Seq<Seq<(u16, u16)>> = Seq::empty();
    let ghost body = ben@.skip(17);
    let mut pos: usize = MAGIC_LEN;
    proof {
        assert(after_blocks(blocks, parse_blocks(body)) == parse_blocks(body)) by {
            match parse_blocks(body) {
                Ok(rest) => {
                    assert(blocks + rest == rest);
                },
                Err(e) => {},
            }
        }
    }
    while pos < ben.len()
        invariant
            17 <= pos <= ben@.len(),
            has_magic(ben@),
            body == ben@.skip(17),
            parse_blocks(body) == after_blocks(blocks, parse_blocks(ben@.skip(pos as int))),
            views(vectors@) == expand_all(blocks),
        decreases ben@.len() - pos,
    {
        let ghost rest = ben@.skip(pos as int);
        match decode_ben_block(ben, pos) {
            Err(e) => {
                proof {
                    assert(parse_blocks(rest) == Err::<Seq<Seq<(u16, u16)>>, CodecError>(e));
                }
                return Err(e);
            },
            Ok((rle_vec, next)) => {
                let ghost runs = rle_vec@;
                let ghost before = vectors@;
                let assign_vec = rle_to_vec(rle_vec);
                vectors.push(assign_vec);
                proof {
                    assert(parse_block(rest) == Ok::<(Seq<(u16, u16)>, nat), CodecError>(
                        (runs, (next - pos) as nat),
                    ));
                    assert(rest.skip(next - pos) == ben@.skip(next as int));
                    let tail = parse_blocks(ben@.skip(next as int));
                    let grown = blocks.push(runs);
                    match tail {
                        Ok(more) => {
                            assert(blocks + (seq![runs] + more) == grown + more);
                        },
                        Err(e) => {},
                    }
                    assert(views(before).len() == before.len());
                    assert(expand_all(blocks).len() == blocks.len());
                    assert(before.len() == blocks.len());
                    assert(vectors@ == before.push(assign_vec));
                    assert(assign_vec@ == expand(runs));
                    assert forall|i: int| 0 <= i < grown.len() implies views(vectors@)[i]
                        == expand_all(grown)[i] by {
                        if i < blocks.len() {
                            assert(views(before)[i] == expand_all(blocks)[i]);
                            assert(vectors@[i] == before[i]);
                            assert(grown[i] == blocks[i]);
                        }
                    }
                    assert(views(vectors@) =~= expand_all(grown));
                    blocks = grown;
                }
                pos = next;
            },
        }
    }
    proof {
        assert(ben@.skip(pos as int).len() == 0);
        assert(blocks + Seq::<Seq<(u16, u16)>>::empty() == blocks);
    }
    Ok(vectors)
}

/// Undoes LZMA2 compression: the bytes held by the xz stream `data`.
pub fn xz_decompress(data: &[u8]) -> (plain: Result<Vec<u8>, CodecError>)
    ensures
        decompressed(data@, bytes_result(plain)),
{
    match lzma_decode(data) {
        Ok(bytes) => Ok(bytes),
        Err(_) => Err(CodecError::Compression),
    }
}

/// The assignment vectors of the samples that a decompressed XBEN stream
/// holds, read by way of the BEN file of the same samples.
pub open spec fn decoded_ben32(ben32: Seq<u8>) -> Result<Seq<Seq<u16>>, CodecError> {
    match ben_file_of_ben32(ben32) {
        Err(e) => Err(e),
        Ok(ben) => decoded_ben(ben),
    }
}

/// Decodes a decompressed XBEN stream into the assignment vectors of its
/// samples, in order.
pub fn decode_ben32(ben32: &[u8]) -> (samples: Result<Vec<Vec<u16>>, CodecError>)
    ensures
        samples_result(samples) == decoded_ben32(ben32@),
{
    match ben32_file_to_ben(ben32) {
        Err(e) => Err(e),
        Ok(ben) => decode_ben(ben.as_slice()),
    }
}

/// Decodes an XBEN file into the BEN file of the same samples: the stream is
/// decompressed, its marker checked, and every sample packed into a block
/// whose widths are those of its own runs.
pub fn decode_xben_to_ben(xben: &[u8]) -> (ben: Result<Vec<u8>, CodecError>)
    ensures
        bytes_result(ben) == Err::<Seq<u8>, CodecError>(CodecError::Compression) || bytes_result(
            ben,
        ) == ben_file_of_ben32(xz_decoded(xben@)),
{
    match xz_decompress(xben) {
        Err(e) => Err(e),
        Ok(ben32) => ben32_file_to_ben(ben32.as_slice()),
    }
}

/// Decodes an XBEN file into the assignment vectors of its samples, in order.
pub fn decode_xben(xben: &[u8]) -> (samples: Result<Vec<Vec<u16>>, CodecError>)
    ensures
        samples_result(samples) == Err::<Seq<Seq<u16>>, CodecError>(CodecError::Compression)
            || samples_result(samples) == decoded_ben32(xz_decoded(xben@)),
{
    match xz_decompress(xben) {
        Err(e) => Err(e),
        Ok(ben32) => decode_ben32(ben32.as_slice()),
    }
}

/// A forward-only reader of the samples of a BEN file: each call decodes one
/// more block, so that a file is never decoded as a whole. To read a file
/// again, make a new reader.
pub struct BenReader<'a> {
    data: &'a [u8],
    pos: usize,
}

impl<'a> BenReader<'a> {
    /// The reader stands inside its file.
    pub closed spec fn wf(&self) -> bool {
        self.pos <= self.data@.len()
    }

    /// The bytes of the blocks that were not read yet.
    pub closed spec fn remaining(&self) -> Seq<u8> {
        self.data@.skip(self.pos as int)
    }

    /// Opens a BEN file: checks the marker and stands before the first block.
    pub fn new(ben: &'a [u8]) -> (reader: Result<BenReader<'a>, CodecError>)
        ensures
            match reader {
                Ok(r) => has_magic(ben@) && r.wf() && r.remaining() == ben@.skip(17),
                Err(e) => e == CodecError::Format && !has_magic(ben@),
            },
    {
        if !has_magic_header(ben) {
            return Err(CodecError::Format);
        }
        Ok(BenReader { data: ben, pos: MAGIC_LEN })
    }

    /// Decodes the next block into its assignment vector. Gives nothing at
    /// the end of the file. A block that cannot be read gives its failure and
    /// ends the reading: nothing is left after it.
    pub fn next_sample(&mut self) -> (sample: Option<Result<Vec<u16>, CodecError>>)
        requires
            old(self).wf(),
        ensures
            final(self).wf(),
            match sample {
                None => old(self).remaining().len() == 0 && final(self).remaining().len() == 0,
                Some(Ok(assign_vec)) => {
                    &&& old(self).remaining().len() > 0
                    &&& parse_block(old(self).remaining()) matches Ok((runs, used))
                    &&& assign_vec@ == expand(runs)
                    &&& 0 < used <= old(self).remaining().len()
                    &&& final(self).remaining() == old(self).remaining().skip(used as int)
                },
                Some(Err(e)) => {
                    &&& old(self).remaining().len() > 0
                    &&& parse_block(old(self).remaining()) == Err::<
                        (Seq<(u16, u16)>, nat),
                        CodecError,
                    >(e)
                    &&& final(self).remaining().len() == 0
                },
            },
    {
        if self.pos >= self.data.len() {
            return None;
        }
        let ghost rest = self.data@.skip(self.pos as int);
        match decode_ben_block(self.data, self.pos) {
            Err(e) => {
                self.pos = self.data.len();
                Some(Err(e))
            },
            Ok((rle_vec, next)) => {
                proof {
                    assert(rest.skip(next - self.pos) == self.data@.skip(next as int));
                }
                self.pos = next;
                Some(Ok(rle_to_vec(rle_vec)))
            },
        }
    }
}

} // verus!
