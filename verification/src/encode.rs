//! Encoding runs into BEN blocks.
//!
//! A block is a six-byte header followed by a payload. The header gives the
//! width in bits of a run's value, the width of its length, and the payload's
//! size in bytes as a big-endian 32-bit number. The payload holds, for each
//! run, the value and then the length in those widths, most significant bit
//! first and with no padding between them; the bits left over in the last
//! byte are zero.

use crate::ben32::{ben32_block, encode_ben_32_line, rle_to_ben32};
use crate::bitpack::BitPacker;
use crate::bitstream::{
    be_bytes,
    byte_len,
    lemma_be_value_of_bytes,
    lemma_pow2_monotone,
    pad_bits,
    push_u32_be,
};
use crate::decode::views;
use crate::error::{after_bytes, bytes_result, CodecError};
use crate::format::{magic, push_magic};
use crate::json::{line_labels, parse_assignment_line};
use crate::translate::{ben32_file_of_ben, ben32_stream, ben_file_to_ben32};
use crate::utils::{assign_slice_to_rle, rle_of};
use crate::xz::{compressed, lzma_encode, XZ_LEVEL};
use vstd::arithmetic::power2::{lemma2_to64, lemma_pow2_unfold, pow2};
use vstd::prelude::*;
use vstd::std_specs::bits::axiom_u16_leading_zeros;

verus! {

/// The number of digits of `x` in binary; none for zero.
pub open spec fn bits_needed(x: nat) -> nat
    decreases x,
{
    if x == 0 {
        0
    } else {
        1 + bits_needed(x / 2)
    }
}

/// The largest value among the runs; zero where there is none.
pub open spec fn max_value(runs: Seq<(u16, u16)>) -> nat
    decreases runs.len(),
{
    if runs.len() == 0 {
        0
    } else {
        let rest = max_value(runs.drop_last());
        if runs.last().0 as nat > rest {
            runs.last().0 as nat
        } else {
            rest
        }
    }
}

/// The largest length among the runs; zero where there is none.
pub open spec fn max_length(runs: Seq<(u16, u16)>) -> nat
    decreases runs.len(),
{
    if runs.len() == 0 {
        0
    } else {
        let rest = max_length(runs.drop_last());
        if runs.last().1 as nat > rest {
            runs.last().1 as nat
        } else {
            rest
        }
    }
}

/// The width of the value field of a block: the digits of the largest value,
/// and one bit where that value is zero.
pub open spec fn value_bits(runs: Seq<(u16, u16)>) -> nat {
    if max_value(runs) == 0 {
        1
    } else {
        bits_needed(max_value(runs))
    }
}

/// The width of the length field of a block: the digits of the largest
/// length.
pub open spec fn length_bits(runs: Seq<(u16, u16)>) -> nat {
    bits_needed(max_length(runs))
}

/// The number of payload bits of a block.
pub open spec fn payload_bits(runs: Seq<(u16, u16)>) -> nat {
    runs.len() * (value_bits(runs) + length_bits(runs))
}

/// The number of payload bytes of a block.
pub open spec fn payload_len(runs: Seq<(u16, u16)>) -> nat {
    byte_len(payload_bits(runs))
}

/// The number that the fields of the runs spell when each value is written in
/// `vb` bits and each length in `lb` bits, one after the other.
pub open spec fn packed_value(runs: Seq<(u16, u16)>, vb: nat, lb: nat) -> nat
    decreases runs.len(),
{
    if runs.len() == 0 {
        0
    } else {
        (packed_value(runs.drop_last(), vb, lb) * pow2(vb) + runs.last().0 as nat) * pow2(lb)
            + runs.last().1 as nat
    }
}

/// The payload of the block that holds `runs`.
pub open spec fn packed_payload(runs: Seq<(u16, u16)>) -> Seq<u8> {
    be_bytes(
        packed_value(runs, value_bits(runs), length_bits(runs)) * pow2(
            pad_bits(payload_bits(runs)),
        ),
        payload_len(runs),
    )
}

/// The block that holds `runs`: header, then payload.
pub open spec fn ben_block(runs: Seq<(u16, u16)>) -> Seq<u8> {
    seq![value_bits(runs) as u8, length_bits(runs) as u8] + be_bytes(payload_len(runs), 4)
        + packed_payload(runs)
}

/// A number below `2^k` has at most `k` binary digits.
pub proof fn lemma_bits_needed_at_most(x: nat, k: nat)
    requires
        x < pow2(k),
    ensures
        bits_needed(x) <= k,
    decreases k,
{
    lemma2_to64();
    if x > 0 {
        lemma_pow2_unfold(k);
        lemma_bits_needed_at_most(x / 2, (k - 1) as nat);
    }
}

/// `bits_needed(x)` is the least width that holds `x`: `x` is below
/// `2^bits_needed(x)`, and a positive `x` is at least half of that.
pub proof fn lemma_bits_needed_minimal(x: nat)
    ensures
        x < pow2(bits_needed(x)),
        x > 0 ==> pow2((bits_needed(x) - 1) as nat) <= x,
    decreases x,
{
    lemma2_to64();
    if x > 0 {
        lemma_bits_needed_minimal(x / 2);
        lemma_pow2_unfold(bits_needed(x));
        if x / 2 > 0 {
            lemma_pow2_unfold(bits_needed(x / 2));
        }
    }
}

/// The width `w` with `2^(w-1) <= x < 2^w` is `bits_needed(x)`.
pub proof fn lemma_bits_needed_unique(x: nat, w: nat)
    requires
        w >= 1,
        pow2((w - 1) as nat) <= x < pow2(w),
    ensures
        bits_needed(x) == w,
    decreases w,
{
    lemma2_to64();
    lemma_pow2_unfold(w);
    if w == 1 {
        assert(x == 1);
        assert(bits_needed(1) == 1 + bits_needed(0));
    } else {
        lemma_pow2_unfold((w - 1) as nat);
        lemma_bits_needed_unique(x / 2, (w - 1) as nat);
    }
}

/// Every run's value is at most the largest, and its length too.
pub proof fn lemma_max_bounds(runs: Seq<(u16, u16)>, i: int)
    requires
        0 <= i < runs.len(),
    ensures
        runs[i].0 <= max_value(runs) <= 0xFFFF,
        runs[i].1 <= max_length(runs) <= 0xFFFF,
    decreases runs.len(),
{
    let init = runs.drop_last();
    if init.len() == 0 {
        assert(max_value(init) == 0);
        assert(max_length(init) == 0);
    } else {
        lemma_max_bounds(init, 0);
        if i < init.len() {
            lemma_max_bounds(init, i);
            assert(init[i] == runs[i]);
        }
    }
}

/// The widths of a block are at most sixteen bits, the value's at least one,
/// and every run fits them.
pub proof fn lemma_widths(runs: Seq<(u16, u16)>)
    ensures
        1 <= value_bits(runs) <= 16,
        length_bits(runs) <= 16,
        forall|i: int|
            0 <= i < runs.len() ==> (#[trigger] runs[i]).0 < pow2(value_bits(runs)) && runs[i].1
                < pow2(length_bits(runs)),
{
    lemma2_to64();
    if runs.len() > 0 {
        lemma_max_bounds(runs, 0);
    }
    lemma_bits_needed_at_most(max_value(runs), 16);
    lemma_bits_needed_at_most(max_length(runs), 16);
    lemma_bits_needed_minimal(max_value(runs));
    lemma_bits_needed_minimal(max_length(runs));
    assert forall|i: int| 0 <= i < runs.len() implies (#[trigger] runs[i]).0 < pow2(
        value_bits(runs),
    ) && runs[i].1 < pow2(length_bits(runs)) by {
        lemma_max_bounds(runs, i);
    }
}

/// The number of binary digits of `x`.
pub fn bit_width(x: u16) -> (width: u8)
    ensures
        width == bits_needed(x as nat),
        width <= 16,
{
    let zeros: u32 = x.leading_zeros();
    proof {
        axiom_u16_leading_zeros(x);
        lemma2_to64();
        if x > 0 {
            let top: u16 = (15 - zeros) as u16;
            let one: u16 = 1u16 << top;
            assert(one == pow2(top as nat)) by {
                lemma_pow2_monotone(top as nat, 15);
                vstd::bits::lemma_u16_shl_is_mul(1u16, top);
            }
            assert(x >= one) by (bit_vector)
                requires
                    top < 16,
                    (x >> top) & 1u16 != 0u16,
                    one == 1u16 << top,
            ;
            if zeros > 0 {
                let above: u16 = (16 - zeros) as u16;
                let next: u16 = 1u16 << above;
                assert(next == pow2(above as nat)) by {
                    lemma_pow2_monotone(above as nat, 15);
                    vstd::bits::lemma_u16_shl_is_mul(1u16, above);
                }
                assert(x < next) by (bit_vector)
                    requires
                        above < 16,
                        x >> above == 0,
                        next == 1u16 << above,
                ;
            }
            lemma_bits_needed_unique(x as nat, (16 - zeros) as nat);
        }
    }
    (16 - zeros) as u8
}

/// The widths of the value and length fields of the block that holds the
/// runs.
pub fn field_widths(rle_vec: &Vec<(u16, u16)>) -> (widths: (u8, u8))
    ensures
        widths.0 == value_bits(rle_vec@),
        widths.1 == length_bits(rle_vec@),
        1 <= widths.0 <= 16,
        widths.1 <= 16,
{
    let mut max_val: u16 = 0;
    let mut max_len: u16 = 0;
    let mut i: usize = 0;
    while i < rle_vec.len()
        invariant
            i <= rle_vec.len(),
            max_val == max_value(rle_vec@.take(i as int)),
            max_len == max_length(rle_vec@.take(i as int)),
        decreases rle_vec.len() - i,
    {
        let (val, len) = rle_vec[i];
        proof {
            let now = rle_vec@.take(i + 1);
            assert(now.drop_last() == rle_vec@.take(i as int));
            assert(now.last() == (val, len));
        }
        if val > max_val {
            max_val = val;
        }
        if len > max_len {
            max_len = len;
        }
        i += 1;
    }
    proof {
        assert(rle_vec@.take(rle_vec@.len() as int) == rle_vec@);
        lemma_widths(rle_vec@);
    }
    let val_bits: u8 = bit_width(max_val);
    let max_val_bits: u8 = if val_bits < 1 { 1 } else { val_bits };
    let max_len_bits: u8 = bit_width(max_len);
    (max_val_bits, max_len_bits)
}

/// Packing one more run multiplies what was packed by the width of a run
/// and adds the run.
pub proof fn lemma_packed_value_push(runs: Seq<(u16, u16)>, run: (u16, u16), vb: nat, lb: nat)
    ensures
        packed_value(runs.push(run), vb, lb) == (packed_value(runs, vb, lb) * pow2(vb)
            + run.0 as nat) * pow2(lb) + run.1 as nat,
{
    assert(runs.push(run).drop_last() == runs);
}

/// Whether the payload of the block that holds the runs fits the header's
/// 32-bit length field.
pub fn block_fits(rle_vec: &Vec<(u16, u16)>) -> (fits: bool)
    ensures
        fits == (payload_len(rle_vec@) <= u32::MAX),
{
    let (max_val_bits, max_len_bits) = field_widths(rle_vec);
    let assign_bits: u128 = (max_val_bits + max_len_bits) as u128;
    let n_runs: u128 = rle_vec.len() as u128;
    proof {
        assert(assign_bits * n_runs <= 32 * 0xFFFF_FFFF_FFFF_FFFF) by (nonlinear_arith)
            requires
                assign_bits <= 32,
                n_runs <= 0xFFFF_FFFF_FFFF_FFFF,
        ;
        assert(assign_bits * n_runs == payload_bits(rle_vec@)) by (nonlinear_arith)
            requires
                assign_bits == value_bits(rle_vec@) + length_bits(rle_vec@),
                n_runs == rle_vec@.len(),
                payload_bits(rle_vec@) == rle_vec@.len() * (value_bits(rle_vec@) + length_bits(
                    rle_vec@,
                )),
        ;
    }
    let n_bits: u128 = assign_bits * n_runs;
    (n_bits + 7) / 8 <= 0xFFFF_FFFF
}

/// Encodes runs as one BEN block.
///
/// No runs give the header `[1, 0, 0, 0, 0, 0]` and an empty payload. The
/// payload's size must fit the header's 32-bit length field.
pub fn encode_ben_vec_from_rle(rle_vec: Vec<(u16, u16)>) -> (output_vec: Vec<u8>)
    requires
        payload_len(rle_vec@) <= u32::MAX,
    ensures
        output_vec@ == ben_block(rle_vec@),
        output_vec@.len() == 6 + payload_len(rle_vec@),
        output_vec@[0] == value_bits(rle_vec@),
        output_vec@[1] == length_bits(rle_vec@),
        output_vec@.subrange(2, 6) == be_bytes(payload_len(rle_vec@), 4),
        output_vec@.subrange(6, output_vec@.len() as int) == packed_payload(rle_vec@),
{
    let mut output_vec: Vec<u8> = Vec::new();
    let (max_val_bits, max_len_bits) = field_widths(&rle_vec);
    let assign_bits: u64 = (max_val_bits + max_len_bits) as u64;
    let n_runs: u64 = rle_vec.len() as u64;
    let ghost vb = value_bits(rle_vec@);
    let ghost lb = length_bits(rle_vec@);
    proof {
        assert(assign_bits * n_runs == payload_bits(rle_vec@)) by (nonlinear_arith)
            requires
                assign_bits == vb + lb,
                n_runs == rle_vec@.len(),
                payload_bits(rle_vec@) == rle_vec@.len() * (vb + lb),
        ;
    }
    let n_bits: u64 = assign_bits * n_runs;
    let n_bytes: u32 = if n_bits % 8 == 0 {
        (n_bits / 8) as u32
    } else {
        (n_bits / 8 + 1) as u32
    };
    output_vec.push(max_val_bits);
    output_vec.push(max_len_bits);
    push_u32_be(&mut output_vec, n_bytes);
    proof {
        assert(n_bytes == payload_len(rle_vec@));
        lemma_be_value_of_bytes(payload_len(rle_vec@), 4);
        assert(output_vec@.len() == 6);
    }

    let mut packer = BitPacker::new();
    let mut i: usize = 0;
    while i < rle_vec.len()
        invariant
            i <= rle_vec.len(),
            packer.wf(),
            max_val_bits == vb,
            max_len_bits == lb,
            vb == value_bits(rle_vec@),
            lb == length_bits(rle_vec@),
            vb <= 16,
            lb <= 16,
            packer.value() == packed_value(rle_vec@.take(i as int), vb, lb),
            packer.bit_len() == i * (vb + lb),
        decreases rle_vec.len() - i,
    {
        let (val, len) = rle_vec[i];
        proof {
            lemma_widths(rle_vec@);
            assert(rle_vec@[i as int] == (val, len));
            assert(rle_vec@.take(i + 1) == rle_vec@.take(i as int).push((val, len)));
            lemma_packed_value_push(rle_vec@.take(i as int), (val, len), vb, lb);
            assert((i + 1) * (vb + lb) == i * (vb + lb) + vb + lb) by (nonlinear_arith);
        }
        packer.push(val, max_val_bits);
        packer.push(len, max_len_bits);
        i += 1;
    }
    proof {
        assert(rle_vec@.take(rle_vec@.len() as int) == rle_vec@);
    }
    let payload = packer.flush();
    let ghost header = output_vec@;
    output_vec.extend_from_slice(payload.as_slice());
    proof {
        assert(payload@ == packed_payload(rle_vec@));
        assert(output_vec@ == header + payload@);
        assert(header =~= seq![vb as u8, lb as u8] + be_bytes(payload_len(rle_vec@), 4));
        assert(output_vec@ =~= ben_block(rle_vec@));
        assert(output_vec@.subrange(2, 6) =~= be_bytes(payload_len(rle_vec@), 4));
        assert(output_vec@.subrange(6, output_vec@.len() as int) =~= packed_payload(rle_vec@));
    }
    output_vec
}

/// The block that holds `runs`, where its payload fits the header's length
/// field.
pub open spec fn block_of_runs(runs: Seq<(u16, u16)>) -> Result<Seq<u8>, CodecError> {
    if payload_len(runs) <= u32::MAX {
        Ok(ben_block(runs))
    } else {
        Err(CodecError::BlockTooLarge)
    }
}

/// The bytes of the items one after the other, or the failure of the first
/// item that failed.
pub open spec fn join_results(items: Seq<Result<Seq<u8>, CodecError>>) -> Result<
    Seq<u8>,
    CodecError,
>
    decreases items.len(),
{
    if items.len() == 0 {
        Ok(Seq::empty())
    } else {
        match join_results(items.drop_last()) {
            Err(e) => Err(e),
            Ok(head) => match items.last() {
                Err(e) => Err(e),
                Ok(bytes) => Ok(head + bytes),
            },
        }
    }
}

/// The block of each sample, or why it has none.
pub open spec fn sample_blocks(samples: Seq<Seq<u16>>) -> Seq<Result<Seq<u8>, CodecError>> {
    Seq::new(samples.len(), |i: int| block_of_runs(rle_of(samples[i])))
}

/// The BEN file of the samples: the marker, then the block of each sample in
/// order. It fails where a sample's block would be too large.
pub open spec fn ben_of_samples(samples: Seq<Seq<u16>>) -> Result<Seq<u8>, CodecError> {
    after_bytes(magic(), join_results(sample_blocks(samples)))
}

/// The block of the sample on one line of JSON, or why it has none.
pub open spec fn line_block(line: Seq<char>) -> Result<Seq<u8>, CodecError> {
    match line_labels(line) {
        None => Err(CodecError::Parse),
        Some(assign_vec) => block_of_runs(rle_of(assign_vec)),
    }
}

/// The block of the sample on each line.
pub open spec fn line_blocks(lines: Seq<String>) -> Seq<Result<Seq<u8>, CodecError>> {
    Seq::new(lines.len(), |i: int| line_block(lines[i]@))
}

/// The BEN file of the samples on the lines: the marker, then the block of
/// each line in order; or the failure of the first line that has no block.
pub open spec fn ben_of_lines(lines: Seq<String>) -> Result<Seq<u8>, CodecError> {
    after_bytes(magic(), join_results(line_blocks(lines)))
}

/// The staging form of the sample on one line of JSON, or why it has none.
pub open spec fn line_ben32(line: Seq<char>) -> Result<Seq<u8>, CodecError> {
    match line_labels(line) {
        None => Err(CodecError::Parse),
        Some(assign_vec) => Ok(ben32_block(rle_of(assign_vec))),
    }
}

/// The staging form of the sample on each line.
pub open spec fn line_ben32s(lines: Seq<String>) -> Seq<Result<Seq<u8>, CodecError>> {
    Seq::new(lines.len(), |i: int| line_ben32(lines[i]@))
}

/// What an XBEN file of the samples on the lines holds before compression:
/// the marker, then the staging form of each line in order; or the failure of
/// the first line that holds no assignment vector.
pub open spec fn ben32_of_lines(lines: Seq<String>) -> Result<Seq<u8>, CodecError> {
    after_bytes(magic(), join_results(line_ben32s(lines)))
}

/// The runs of each sample.
pub open spec fn sample_runs(samples: Seq<Seq<u16>>) -> Seq<Seq<(u16, u16)>> {
    Seq::new(samples.len(), |i: int| rle_of(samples[i]))
}

/// What an XBEN file of the samples holds before compression: the marker,
/// then the staging form of each sample in order.
pub open spec fn ben32_of_samples(samples: Seq<Seq<u16>>) -> Seq<u8> {
    magic() + ben32_stream(sample_runs(samples))
}

/// A failure among the first `k` items is the failure of all of them.
pub proof fn lemma_join_failure(items: Seq<Result<Seq<u8>, CodecError>>, k: int)
    requires
        0 <= k <= items.len(),
        join_results(items.take(k)) is Err,
    ensures
        join_results(items) == join_results(items.take(k)),
    decreases items.len(),
{
    if k == items.len() {
        assert(items.take(k) == items);
    } else {
        assert(items.drop_last().take(k) == items.take(k));
        lemma_join_failure(items.drop_last(), k);
    }
}

/// Joining one more item appends its bytes, or fails as it does.
pub proof fn lemma_join_next(items: Seq<Result<Seq<u8>, CodecError>>, k: int, head: Seq<u8>)
    requires
        0 <= k < items.len(),
        join_results(items.take(k)) == Ok::<Seq<u8>, CodecError>(head),
    ensures
        join_results(items.take(k + 1)) == after_bytes(head, items[k]),
{
    let next = items.take(k + 1);
    assert(next.drop_last() == items.take(k));
    assert(next.last() == items[k]);
}

/// Encodes an assignment vector as one BEN block.
pub fn encode_ben_line(assign_vec: &[u16]) -> (block: Result<Vec<u8>, CodecError>)
    ensures
        bytes_result(block) == block_of_runs(rle_of(assign_vec@)),
{
    let rle_vec = assign_slice_to_rle(assign_vec);
    if !block_fits(&rle_vec) {
        return Err(CodecError::BlockTooLarge);
    }
    Ok(encode_ben_vec_from_rle(rle_vec))
}

/// Encodes samples as a BEN file: the marker, then one block for each sample
/// in order.
pub fn encode_ben(samples: &Vec<Vec<u16>>) -> (ben: Result<Vec<u8>, CodecError>)
    ensures
        bytes_result(ben) == ben_of_samples(views(samples@)),
{
    let mut out: Vec<u8> = Vec::new();
    push_magic(&mut out);
    let ghost items = sample_blocks(views(samples@));
    let ghost mut body: Seq<u8> = Seq::empty();
    let mut i: usize = 0;
    proof {
        assert(out@ == magic() + body);
    }
    while i < samples.len()
        invariant
            i <= samples.len(),
            items == sample_blocks(views(samples@)),
            items.len() == samples@.len(),
            out@ == magic() + body,
            join_results(items.take(i as int)) == Ok::<Seq<u8>, CodecError>(body),
        decreases samples.len() - i,
    {
        let block = encode_ben_line(samples[i].as_slice());
        proof {
            assert(items[i as int] == bytes_result(block));
            lemma_join_next(items, i as int, body);
        }
        match block {
            Err(e) => {
                proof {
                    lemma_join_failure(items, i + 1);
                }
                return Err(e);
            },
            Ok(encoded) => {
                out.extend_from_slice(encoded.as_slice());
                proof {
                    assert(magic() + body + encoded@ == magic() + (body + encoded@));
                    body = body + encoded@;
                }
            },
        }
        i += 1;
    }
    proof {
        assert(items.take(i as int) == items);
    }
    Ok(out)
}

/// Compresses a JSONL file, given by its lines, into the BEN format.
///
/// Each line is an object `{"assignment": [...], "sample": n}`. The result is
/// the marker followed by one block per line, in the order of the lines.
pub fn jsonl_encode_ben(lines: &Vec<String>) -> (ben: Result<Vec<u8>, CodecError>)
    ensures
        bytes_result(ben) == ben_of_lines(lines@),
{
    let mut out: Vec<u8> = Vec::new();
    push_magic(&mut out);
    let ghost items = line_blocks(lines@);
    let ghost mut body: Seq<u8> = Seq::empty();
    let mut i: usize = 0;
    proof {
        assert(out@ == magic() + body);
    }
    while i < lines.len()
        invariant
            i <= lines.len(),
            items == line_blocks(lines@),
            items.len() == lines@.len(),
            out@ == magic() + body,
            join_results(items.take(i as int)) == Ok::<Seq<u8>, CodecError>(body),
        decreases lines.len() - i,
    {
        proof {
            lemma_join_next(items, i as int, body);
        }
        let assign_vec = match parse_assignment_line(lines[i].as_str()) {
            Ok(assign_vec) => assign_vec,
            Err(e) => {
                proof {
                    lemma_join_failure(items, i + 1);
                }
                return Err(e);
            },
        };
        match encode_ben_line(assign_vec.as_slice()) {
            Err(e) => {
                proof {
                    lemma_join_failure(items, i + 1);
                }
                return Err(e);
            },
            Ok(encoded) => {
                out.extend_from_slice(encoded.as_slice());
                proof {
                    assert(magic() + body + encoded@ == magic() + (body + encoded@));
                    body = body + encoded@;
                }
            },
        }
        i += 1;
    }
    proof {
        assert(items.take(i as int) == items);
    }
    Ok(out)
}

/// Writes what an XBEN file of the lines holds before compression: the
/// marker, then the staging form of the sample on each line.
pub fn jsonl_encode_ben32(lines: &Vec<String>) -> (ben32: Result<Vec<u8>, CodecError>)
    ensures
        bytes_result(ben32) == ben32_of_lines(lines@),
{
    let mut out: Vec<u8> = Vec::new();
    push_magic(&mut out);
    let ghost items = line_ben32s(lines@);
    let ghost mut body: Seq<u8> = Seq::empty();
    let mut i: usize = 0;
    proof {
        assert(out@ == magic() + body);
    }
    while i < lines.len()
        invariant
            i <= lines.len(),
            items == line_ben32s(lines@),
            items.len() == lines@.len(),
            out@ == magic() + body,
            join_results(items.take(i as int)) == Ok::<Seq<u8>, CodecError>(body),
        decreases lines.len() - i,
    {
        proof {
            lemma_join_next(items, i as int, body);
        }
        let assign_vec = match parse_assignment_line(lines[i].as_str()) {
            Ok(assign_vec) => assign_vec,
            Err(e) => {
                proof {
                    lemma_join_failure(items, i + 1);
                }
                return Err(e);
            },
        };
        let ben32_vec = encode_ben_32_line(assign_vec);
        out.extend_from_slice(ben32_vec.as_slice());
        proof {
            assert(magic() + body + ben32_vec@ == magic() + (body + ben32_vec@));
            body = body + ben32_vec@;
        }
        i += 1;
    }
    proof {
        assert(items.take(i as int) == items);
    }
    Ok(out)
}

/// Applies level 9 LZMA2 compression to `data`.
pub fn xz_compress(data: &[u8]) -> (stream: Result<Vec<u8>, CodecError>)
    ensures
        compressed(data@, bytes_result(stream)),
{
    match lzma_encode(data, XZ_LEVEL) {
        Ok(bytes) => Ok(bytes),
        Err(_) => Err(CodecError::Compression),
    }
}

/// Writes what an XBEN file of the samples holds before compression.
pub fn encode_ben32(samples: &Vec<Vec<u16>>) -> (ben32: Vec<u8>)
    ensures
        ben32@ == ben32_of_samples(views(samples@)),
{
    let mut out: Vec<u8> = Vec::new();
    push_magic(&mut out);
    let ghost runs = sample_runs(views(samples@));
    let mut i: usize = 0;
    proof {
        assert(runs.take(0).len() == 0);
        assert(out@ == magic() + ben32_stream(runs.take(0)));
    }
    while i < samples.len()
        invariant
            i <= samples.len(),
            runs == sample_runs(views(samples@)),
            runs.len() == samples@.len(),
            out@ == magic() + ben32_stream(runs.take(i as int)),
        decreases samples.len() - i,
    {
        let rle_vec = assign_slice_to_rle(samples[i].as_slice());
        let ben32_vec = rle_to_ben32(&rle_vec);
        let ghost before = ben32_stream(runs.take(i as int));
        out.extend_from_slice(ben32_vec.as_slice());
        proof {
            let next = runs.take(i + 1);
            assert(next.drop_last() == runs.take(i as int));
            assert(next.last() == rle_vec@);
            assert(magic() + before + ben32_vec@ == magic() + (before + ben32_vec@));
        }
        i += 1;
    }
    proof {
        assert(runs.take(i as int) == runs);
    }
    out
}

/// Encodes samples as an XBEN file: the marker and the staging form of every
/// sample, as one xz stream.
pub fn encode_xben(samples: &Vec<Vec<u16>>) -> (xben: Result<Vec<u8>, CodecError>)
    ensures
        compressed(ben32_of_samples(views(samples@)), bytes_result(xben)),
{
    let buffer = encode_ben32(samples);
    xz_compress(buffer.as_slice())
}

/// What compressing `payload` gives, where there is a payload; else the
/// failure that stands in its place.
pub open spec fn compressed_payload(
    payload: Result<Seq<u8>, CodecError>,
    r: Result<Seq<u8>, CodecError>,
) -> bool {
    match payload {
        Err(e) => r == Err::<Seq<u8>, CodecError>(e),
        Ok(bytes) => compressed(bytes, r),
    }
}

/// Compresses a JSONL file, given by its lines, into the XBEN format: the
/// marker and the staging form of every sample, as one xz stream.
pub fn jsonl_encode_xben(lines: &Vec<String>) -> (xben: Result<Vec<u8>, CodecError>)
    ensures
        compressed_payload(ben32_of_lines(lines@), bytes_result(xben)),
{
    match jsonl_encode_ben32(lines) {
        Err(e) => Err(e),
        Ok(buffer) => xz_compress(buffer.as_slice()),
    }
}

/// Encodes a BEN file as an XBEN file: its blocks are translated into the
/// staging form, which is compressed behind a fresh marker.
pub fn encode_ben_to_xben(ben: &[u8]) -> (xben: Result<Vec<u8>, CodecError>)
    ensures
        compressed_payload(ben32_file_of_ben(ben@), bytes_result(xben)),
{
    match ben_file_to_ben32(ben) {
        Err(e) => Err(e),
        Ok(buffer) => xz_compress(buffer.as_slice()),
    }
}

} // verus!
