//! The byte-aligned staging form of runs.
//!
//! A run becomes one big-endian 32-bit word, the value in its high half and
//! the length in its low half. The runs of a sample are followed by a word of
//! zero. A run covers at least one node, so its word is never zero and the
//! end of a sample is never in doubt.

use crate::bitstream::{
    be_bytes,
    be_value,
    lemma_be_value_of_bytes,
    push_u32_be,
    read_u32_be,
};
use crate::error::CodecError;
use crate::utils::{rle_of, MAX_RUN};
use vstd::arithmetic::power2::lemma2_to64;
use vstd::prelude::*;

verus! {

/// The 32-bit word of a run: `(value << 16) | length`.
pub open spec fn ben32_word(run: (u16, u16)) -> nat {
    run.0 as nat * 0x1_0000 + run.1 as nat
}

/// The words of the runs, four bytes each, in order.
pub open spec fn ben32_records(runs: Seq<(u16, u16)>) -> Seq<u8>
    decreases runs.len(),
{
    if runs.len() == 0 {
        Seq::empty()
    } else {
        ben32_records(runs.drop_last()) + be_bytes(ben32_word(runs.last()), 4)
    }
}

/// The word that ends a sample.
pub open spec fn ben32_end() -> Seq<u8> {
    seq![0u8, 0u8, 0u8, 0u8]
}

/// The staging form of one sample: the words of its runs, then the word of
/// zero.
pub open spec fn ben32_block(runs: Seq<(u16, u16)>) -> Seq<u8> {
    ben32_records(runs) + ben32_end()
}

/// The run that a word stands for.
pub open spec fn run_of_word(word: nat) -> (u16, u16) {
    ((word / 0x1_0000) as u16, (word % 0x1_0000) as u16)
}

/// One sample at the head of `bytes`: the runs of the words before the first
/// word of zero, and the number of bytes up to and including that word. Bytes
/// that end before a word of zero was seen are a truncated stream.
pub open spec fn parse_ben32(bytes: Seq<u8>) -> Result<(Seq<(u16, u16)>, nat), CodecError>
    decreases bytes.len(),
{
    if bytes.len() < 4 {
        Err(CodecError::TruncatedStream)
    } else {
        let word = be_value(bytes.take(4));
        if word == 0 {
            Ok((Seq::empty(), 4))
        } else {
            match parse_ben32(bytes.skip(4)) {
                Err(e) => Err(e),
                Ok((rest, used)) => Ok((seq![run_of_word(word)] + rest, used + 4)),
            }
        }
    }
}

/// The word of a run fits 32 bits, gives the run back, and is not zero where
/// the run covers at least one node.
pub proof fn lemma_ben32_word(run: (u16, u16))
    ensures
        ben32_word(run) <= u32::MAX,
        run_of_word(ben32_word(run)) == run,
        run.1 >= 1 ==> ben32_word(run) != 0,
        be_bytes(ben32_word(run), 4).len() == 4,
        be_value(be_bytes(ben32_word(run), 4)) == ben32_word(run),
        run.1 >= 1 ==> be_bytes(ben32_word(run), 4) != ben32_end(),
{
    lemma2_to64();
    lemma_be_value_of_bytes(ben32_word(run), 4);
    assert(be_value(ben32_end()) == 0) by {
        reveal_with_fuel(be_value, 5);
        let e = ben32_end();
        assert(e.drop_last().drop_last().drop_last().drop_last().len() == 0);
    }
}

/// The words of runs with one more run are the words of the runs and then
/// the word of that run.
pub proof fn lemma_ben32_records_push(runs: Seq<(u16, u16)>, run: (u16, u16))
    ensures
        ben32_records(runs.push(run)) == ben32_records(runs) + be_bytes(ben32_word(run), 4),
        ben32_records(runs).len() == 4 * runs.len(),
    decreases runs.len(),
{
    assert(runs.push(run).drop_last() == runs);
    if runs.len() > 0 {
        lemma_ben32_records_push(runs.drop_last(), runs.last());
        assert(runs.drop_last().push(runs.last()) == runs);
        lemma_ben32_word(runs.last());
    }
}

/// Appends the word of the run `(value, length)`.
pub fn push_ben32_record(out: &mut Vec<u8>, value: u16, length: u16)
    ensures
        final(out)@ == old(out)@ + be_bytes(ben32_word((value, length)), 4),
{
    let encoded: u32 = (value as u32) << 16 | (length as u32);
    proof {
        assert(((value as u32) << 16 | (length as u32)) == (value as u32) * 0x1_0000 + (
        length as u32)) by (bit_vector);
    }
    push_u32_be(out, encoded);
}

/// Writes runs in their staging form.
pub fn rle_to_ben32(rle_vec: &Vec<(u16, u16)>) -> (ret: Vec<u8>)
    ensures
        ret@ == ben32_block(rle_vec@),
{
    let mut ret: Vec<u8> = Vec::new();
    let mut i: usize = 0;
    while i < rle_vec.len()
        invariant
            i <= rle_vec.len(),
            ret@ == ben32_records(rle_vec@.take(i as int)),
        decreases rle_vec.len() - i,
    {
        let (value, length) = rle_vec[i];
        proof {
            assert(rle_vec@.take(i + 1) == rle_vec@.take(i as int).push((value, length)));
            lemma_ben32_records_push(rle_vec@.take(i as int), (value, length));
        }
        push_ben32_record(&mut ret, value, length);
        i += 1;
    }
    proof {
        assert(rle_vec@.take(rle_vec@.len() as int) == rle_vec@);
        lemma_be_bytes_zero();
    }
    push_u32_be(&mut ret, 0);
    ret
}

/// The four bytes of zero are the word that ends a sample.
pub proof fn lemma_be_bytes_zero()
    ensures
        be_bytes(0, 4) == ben32_end(),
{
    reveal_with_fuel(be_bytes, 5);
    assert(be_bytes(0, 4) =~= ben32_end());
}

/// Writes an assignment vector in its staging form: the words of its runs,
/// closed as the vector is read, then the word of zero.
pub fn encode_ben_32_line(assign_vec: Vec<u16>) -> (ret: Vec<u8>)
    ensures
        ret@ == ben32_block(rle_of(assign_vec@)),
{
    let mut prev_assign: u16 = 0;
    let mut count: u16 = 0;
    let mut ret: Vec<u8> = Vec::new();
    let ghost mut closed: Seq<(u16, u16)> = Seq::empty();
    let mut i: usize = 0;
    while i < assign_vec.len()
        invariant
            i <= assign_vec.len(),
            ret@ == ben32_records(closed),
            i == 0 ==> count == 0 && closed.len() == 0,
            i > 0 ==> count >= 1 && rle_of(assign_vec@.take(i as int)) == closed.push(
                (prev_assign, count),
            ),
        decreases assign_vec.len() - i,
    {
        let assign: u16 = assign_vec[i];
        proof {
            let before = assign_vec@.take(i as int);
            let now = assign_vec@.take(i + 1);
            assert(now.drop_last() == before);
            assert(now.last() == assign);
            if i > 0 {
                let init = closed.push((prev_assign, count));
                assert(init.drop_last() == closed);
                assert(init.last() == (prev_assign, count));
            } else {
                assert(before.len() == 0);
                assert(rle_of(before) == Seq::<(u16, u16)>::empty());
            }
        }
        if count == 0 {
            prev_assign = assign;
            count = 1;
        } else if assign == prev_assign && count < MAX_RUN {
            count += 1;
        } else {
            proof {
                lemma_ben32_records_push(closed, (prev_assign, count));
                closed = closed.push((prev_assign, count));
            }
            push_ben32_record(&mut ret, prev_assign, count);
            prev_assign = assign;
            count = 1;
        }
        i += 1;
    }
    if count > 0 {
        proof {
            lemma_ben32_records_push(closed, (prev_assign, count));
            closed = closed.push((prev_assign, count));
        }
        push_ben32_record(&mut ret, prev_assign, count);
    }
    proof {
        assert(assign_vec@.take(assign_vec@.len() as int) == assign_vec@);
        assert(closed == rle_of(assign_vec@));
        lemma_be_bytes_zero();
    }
    push_u32_be(&mut ret, 0);
    ret
}

/// What is read where `first` runs were read in `used` bytes already and
/// `rest` is what reading on gives.
pub open spec fn after_runs(
    first: Seq<(u16, u16)>,
    used: nat,
    rest: Result<(Seq<(u16, u16)>, nat), CodecError>,
) -> Result<(Seq<(u16, u16)>, nat), CodecError> {
    match rest {
        Err(e) => Err(e),
        Ok((runs, more)) => Ok((first + runs, used + more)),
    }
}

/// Reads the sample whose staging form starts at `pos`: its runs, and where
/// the next sample starts.
pub fn decode_ben32_line(data: &[u8], pos: usize) -> (sample: Result<
    (Vec<(u16, u16)>, usize),
    CodecError,
>)
    requires
        pos <= data@.len(),
    ensures
        match sample {
            Ok((rle_vec, next)) => {
                &&& pos < next <= data@.len()
                &&& parse_ben32(data@.skip(pos as int)) == Ok::<
                    (Seq<(u16, u16)>, nat),
                    CodecError,
                >((rle_vec@, (next - pos) as nat))
            },
            Err(e) => parse_ben32(data@.skip(pos as int)) == Err::<
                (Seq<(u16, u16)>, nat),
                CodecError,
            >(e),
        },
{
    let mut rle_vec: Vec<(u16, u16)> = Vec::new();
    let mut cur: usize = pos;
    let ghost whole = parse_ben32(data@.skip(pos as int));
    proof {
        match whole {
            Ok((runs, more)) => {
                assert(rle_vec@ + runs == runs);
            },
            Err(e) => {},
        }
    }
    loop
        invariant
            pos <= cur <= data@.len(),
            whole == parse_ben32(data@.skip(pos as int)),
            whole == after_runs(rle_vec@, (cur - pos) as nat, parse_ben32(data@.skip(cur as int))),
        decreases data@.len() - cur,
    {
        let ghost rest = data@.skip(cur as int);
        if data.len() - cur < 4 {
            return Err(CodecError::TruncatedStream);
        }
        let word: u32 = read_u32_be(data, cur);
        proof {
            assert(data@.subrange(cur as int, cur + 4) == rest.take(4));
            assert(rest.skip(4) == data@.skip(cur + 4));
        }
        if word == 0 {
            proof {
                assert(rle_vec@ + Seq::<(u16, u16)>::empty() == rle_vec@);
            }
            return Ok((rle_vec, cur + 4));
        }
        let value: u16 = (word >> 16) as u16;
        let length: u16 = (word & 0xFFFF) as u16;
        proof {
            assert((word >> 16) == word / 0x1_0000 && (word >> 16) <= 0xFFFF) by (bit_vector);
            assert((word & 0xFFFF) == word % 0x1_0000) by (bit_vector);
            assert((value, length) == run_of_word(word as nat));
            match parse_ben32(rest.skip(4)) {
                Ok((runs, more)) => {
                    assert(rle_vec@ + (seq![(value, length)] + runs) == rle_vec@.push(
                        (value, length),
                    ) + runs);
                },
                Err(e) => {},
            }
        }
        rle_vec.push((value, length));
        cur = cur + 4;
    }
}

} // verus!
