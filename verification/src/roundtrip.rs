//! Decoding undoes encoding: the laws that tie the two directions together.

use crate::bitstream::{
    be_bytes,
    be_value,
    bits_at,
    byte_len,
    lemma_be_value_of_bytes,
    lemma_div_mod_split,
    lemma_pow2_sum,
    pad_bits,
};
use crate::ben32::{
    ben32_block,
    ben32_end,
    ben32_records,
    ben32_word,
    lemma_be_bytes_zero,
    lemma_ben32_word,
    parse_ben32,
    run_of_word,
};
use crate::decode::{
    decoded_ben,
    decoded_ben32,
    expand_all,
    field_count,
    parse_block,
    parse_blocks,
    run_at,
    unpacked_prefix,
    unpacked_runs,
};
use crate::error::{after_bytes, CodecError};
use crate::format::{has_magic, magic};
use crate::json::line_labels;
use crate::translate::{ben32_file_of_ben, ben32_stream, ben_file_of_ben32, ben_of_ben32};
use crate::encode::{
    ben32_of_lines,
    ben32_of_samples,
    ben_block,
    ben_of_lines,
    ben_of_samples,
    block_of_runs,
    join_results,
    lemma_bits_needed_minimal,
    line_ben32,
    line_ben32s,
    line_blocks,
    max_value,
    payload_bits,
    sample_blocks,
    sample_runs,
    length_bits,
    lemma_max_bounds,
    lemma_widths,
    max_length,
    packed_payload,
    packed_value,
    payload_len,
    value_bits,
};
use crate::utils::{expand, lemma_rle_roundtrip, rle_of, runs_nonempty};
use crate::xz::{xz_decoded, xz_encoded, XZ_LEVEL};
use vstd::arithmetic::div_mod::lemma_div_denominator;
use vstd::arithmetic::power2::{lemma2_to64, pow2};
use vstd::prelude::*;

verus! {

/// Every run's value fits `vb` bits and its length fits `lb` bits.
pub open spec fn runs_fit(runs: Seq<(u16, u16)>, vb: nat, lb: nat) -> bool {
    forall|i: int|
        0 <= i < runs.len() ==> (#[trigger] runs[i]).0 < pow2(vb) && runs[i].1 < pow2(lb)
}

/// Shifting left by `p` bits and right by `p + e` bits shifts right by `e`.
pub proof fn lemma_shift_cancel(a: nat, p: nat, e: nat)
    ensures
        (a * pow2(p)) / pow2(p + e) == a / pow2(e),
{
    lemma_pow2_sum(p, e);
    lemma_div_denominator((a * pow2(p)) as int, pow2(p) as int, pow2(e) as int);
    lemma_div_mod_split(a, 0, pow2(p));
}

/// Shifting left by `p` bits and right by `d <= p` bits shifts left by
/// `p - d`.
pub proof fn lemma_shift_partial(a: nat, p: nat, d: nat)
    requires
        d <= p,
    ensures
        (a * pow2(p)) / pow2(d) == a * pow2((p - d) as nat),
{
    lemma_pow2_sum((p - d) as nat, d);
    let x = pow2((p - d) as nat);
    let y = pow2(d);
    assert(a * (x * y) == (a * x) * y) by (nonlinear_arith);
    lemma_div_mod_split(a * x, 0, y);
}

/// A number shifted left by at least `l` bits has its low `l` bits clear.
pub proof fn lemma_shifted_low_bits(a: nat, e: nat, l: nat)
    requires
        l <= e,
    ensures
        (a * pow2(e)) % pow2(l) == 0,
{
    lemma_pow2_sum((e - l) as nat, l);
    let x = pow2((e - l) as nat);
    let y = pow2(l);
    assert(a * (x * y) == (a * x) * y) by (nonlinear_arith);
    lemma_div_mod_split(a * x, 0, y);
}

/// The fields of one run, value above length, as one number of `vb + lb`
/// bits.
pub open spec fn field_pair(run: (u16, u16), lb: nat) -> nat {
    run.0 as nat * pow2(lb) + run.1 as nat
}

/// A run that fits its widths has a field pair below `2^(vb + lb)`, from
/// which value and length are read back by division.
pub proof fn lemma_field_pair(run: (u16, u16), vb: nat, lb: nat)
    requires
        run.0 < pow2(vb),
        run.1 < pow2(lb),
    ensures
        field_pair(run, lb) < pow2(vb + lb),
        field_pair(run, lb) / pow2(lb) == run.0,
        field_pair(run, lb) % pow2(lb) == run.1,
{
    lemma_pow2_sum(vb, lb);
    let v = run.0 as nat;
    let l = run.1 as nat;
    let pv = pow2(vb);
    let pl = pow2(lb);
    assert(v * pl + l < pv * pl) by (nonlinear_arith)
        requires
            v < pv,
            l < pl,
    ;
    lemma_div_mod_split(v, l, pl);
}

/// What is packed is what was packed before the last run, shifted left by the
/// width of a run, plus the last run's field pair.
pub proof fn lemma_packed_value_step(runs: Seq<(u16, u16)>, vb: nat, lb: nat)
    requires
        runs.len() > 0,
    ensures
        packed_value(runs, vb, lb) == packed_value(runs.drop_last(), vb, lb) * pow2(vb + lb)
            + field_pair(runs.last(), lb),
{
    lemma_pow2_sum(vb, lb);
    let s = packed_value(runs.drop_last(), vb, lb);
    let v = runs.last().0 as nat;
    let l = runs.last().1 as nat;
    let pv = pow2(vb);
    let pl = pow2(lb);
    assert((s * pv + v) * pl + l == s * (pv * pl) + (v * pl + l)) by (nonlinear_arith);
}

/// Runs that fit their widths pack into a number of as many bits as the runs
/// take.
pub proof fn lemma_packed_value_bound(runs: Seq<(u16, u16)>, vb: nat, lb: nat)
    requires
        runs_fit(runs, vb, lb),
    ensures
        packed_value(runs, vb, lb) < pow2(runs.len() * (vb + lb)),
    decreases runs.len(),
{
    lemma2_to64();
    let w = vb + lb;
    if runs.len() == 0 {
        assert(runs.len() * w == 0) by (nonlinear_arith)
            requires
                runs.len() == 0,
        ;
    } else {
        let init = runs.drop_last();
        assert(runs_fit(init, vb, lb)) by {
            assert forall|i: int| 0 <= i < init.len() implies (#[trigger] init[i]).0 < pow2(vb)
                && init[i].1 < pow2(lb) by {
                assert(init[i] == runs[i]);
            }
        }
        lemma_packed_value_bound(init, vb, lb);
        lemma_packed_value_step(runs, vb, lb);
        assert(runs.last() == runs[runs.len() - 1]);
        lemma_field_pair(runs.last(), vb, lb);
        lemma_pow2_sum(init.len() * w, w);
        assert(init.len() * w + w == runs.len() * w) by (nonlinear_arith)
            requires
                init.len() + 1 == runs.len(),
        ;
        let s = packed_value(init, vb, lb);
        let f = field_pair(runs.last(), lb);
        let hi = pow2(init.len() * w);
        let pw = pow2(w);
        assert(s * pw + f < hi * pw) by (nonlinear_arith)
            requires
                s < hi,
                f < pw,
        ;
    }
}

/// Dropping the bits of the runs after the first `j` leaves what the first
/// `j` runs pack into.
pub proof fn lemma_packed_prefix(runs: Seq<(u16, u16)>, vb: nat, lb: nat, j: nat)
    requires
        runs_fit(runs, vb, lb),
        j <= runs.len(),
    ensures
        packed_value(runs, vb, lb) / pow2(((runs.len() - j) * (vb + lb)) as nat) == packed_value(
            runs.take(j as int),
            vb,
            lb,
        ),
    decreases runs.len(),
{
    lemma2_to64();
    let w = vb + lb;
    let n = runs.len();
    if j == n {
        assert(runs.take(j as int) == runs);
        assert((n - j) * w == 0) by (nonlinear_arith)
            requires
                n - j == 0,
        ;
        assert(pow2(((n - j) * w) as nat) == 1);
    } else {
        let init = runs.drop_last();
        assert(runs_fit(init, vb, lb)) by {
            assert forall|i: int| 0 <= i < init.len() implies (#[trigger] init[i]).0 < pow2(vb)
                && init[i].1 < pow2(lb) by {
                assert(init[i] == runs[i]);
            }
        }
        lemma_packed_prefix(init, vb, lb, j);
        assert(init.take(j as int) == runs.take(j as int));
        lemma_packed_value_step(runs, vb, lb);
        assert(runs.last() == runs[n - 1]);
        lemma_field_pair(runs.last(), vb, lb);
        let s = packed_value(runs, vb, lb);
        let rest = ((init.len() - j) * w) as nat;
        lemma_div_mod_split(packed_value(init, vb, lb), field_pair(runs.last(), lb), pow2(w));
        lemma_pow2_sum(w, rest);
        lemma_div_denominator(s as int, pow2(w) as int, pow2(rest) as int);
        assert(w + rest == (n - j) * w) by (nonlinear_arith)
            requires
                rest == (init.len() - j) * w,
                init.len() + 1 == n,
                j <= init.len(),
        ;
        assert(s / pow2(w) == packed_value(init, vb, lb));
        assert(packed_value(init, vb, lb) / pow2(rest) == packed_value(runs.take(j as int), vb, lb));
        assert((s / pow2(w)) / pow2(rest) == s / (pow2(w) * pow2(rest)));
        assert(pow2(w) * pow2(rest) == pow2(((n - j) * w) as nat));
    }
}

/// The payload that holds `runs` where a value takes `vb` bits and a length
/// `lb` bits.
pub open spec fn packed_with(runs: Seq<(u16, u16)>, vb: nat, lb: nat) -> Seq<u8> {
    be_bytes(
        packed_value(runs, vb, lb) * pow2(pad_bits(runs.len() * (vb + lb))),
        byte_len(runs.len() * (vb + lb)),
    )
}

/// A payload spells what its runs pack into, shifted left by the padding.
pub proof fn lemma_payload_value(runs: Seq<(u16, u16)>, vb: nat, lb: nat)
    requires
        runs_fit(runs, vb, lb),
    ensures
        packed_with(runs, vb, lb).len() == byte_len(runs.len() * (vb + lb)),
        be_value(packed_with(runs, vb, lb)) == packed_value(runs, vb, lb) * pow2(
            pad_bits(runs.len() * (vb + lb)),
        ),
{
    let bits = runs.len() * (vb + lb);
    let pad = pad_bits(bits);
    let n = byte_len(bits);
    let s = packed_value(runs, vb, lb);
    lemma_packed_value_bound(runs, vb, lb);
    lemma_pow2_sum(bits, pad);
    assert(bits + pad == 8 * n);
    let hi = pow2(bits);
    let pp = pow2(pad);
    assert(s * pp < hi * pp) by (nonlinear_arith)
        requires
            s < hi,
            pp > 0,
    ;
    lemma_be_value_of_bytes(s * pp, n);
}

/// Inside the runs, field pair `k` of a payload holds run `k`.
pub proof fn lemma_run_at_inside(runs: Seq<(u16, u16)>, vb: nat, lb: nat, k: nat)
    requires
        runs_fit(runs, vb, lb),
        k < runs.len(),
    ensures
        run_at(packed_with(runs, vb, lb), vb, lb, k) == (runs[k as int].0 as nat, runs[k as int].1 as nat),
{
    let w = vb + lb;
    let count = runs.len();
    let bits = count * w;
    let pad = pad_bits(bits);
    let n = byte_len(bits);
    let s = packed_value(runs, vb, lb);
    let payload = packed_with(runs, vb, lb);
    lemma_payload_value(runs, vb, lb);
    let r = ((count - (k + 1)) * w) as nat;
    assert(8 * n - k * w - vb - lb == pad + r) by (nonlinear_arith)
        requires
            8 * n == count * w + pad,
            r == (count - (k + 1)) * w,
            w == vb + lb,
            k < count,
    ;
    // what the first k + 1 runs pack into
    let head = runs.take(k + 1 as int);
    let q = packed_value(head, vb, lb);
    lemma_packed_prefix(runs, vb, lb, k + 1);
    assert(s / pow2(r) == q);
    assert(head.last() == runs[k as int]);
    let sk = packed_value(head.drop_last(), vb, lb);
    let v = runs[k as int].0 as nat;
    let l = runs[k as int].1 as nat;
    assert(q == (sk * pow2(vb) + v) * pow2(lb) + l);
    lemma_div_mod_split(sk * pow2(vb) + v, l, pow2(lb));
    lemma_div_mod_split(sk, v, pow2(vb));
    // the length: the low lb bits above the padding and the later runs
    lemma_shift_cancel(s, pad, r);
    assert(bits_at(payload, k * w + vb, lb) == l) by {
        assert((8 * payload.len() - (k * w + vb) - lb) as nat == pad + r);
    }
    // the value: the vb bits above the length
    lemma_shift_cancel(s, pad, r + lb);
    lemma_pow2_sum(r, lb);
    lemma_div_denominator(s as int, pow2(r) as int, pow2(lb) as int);
    assert(bits_at(payload, k * w, vb) == v) by {
        assert((8 * payload.len() - k * w - vb) as nat == pad + (r + lb));
        assert(s / pow2(r + lb) == q / pow2(lb));
    }
}

/// Past the runs, a field pair of a payload lies in the padding and has
/// length zero.
pub proof fn lemma_run_at_padding(runs: Seq<(u16, u16)>, vb: nat, lb: nat, k: nat)
    requires
        runs_fit(runs, vb, lb),
        runs.len() <= k,
        (k + 1) * (vb + lb) <= 8 * byte_len(runs.len() * (vb + lb)),
    ensures
        run_at(packed_with(runs, vb, lb), vb, lb, k).1 == 0,
{
    let w = vb + lb;
    let count = runs.len();
    let bits = count * w;
    let pad = pad_bits(bits);
    let n = byte_len(bits);
    let s = packed_value(runs, vb, lb);
    let payload = packed_with(runs, vb, lb);
    lemma_payload_value(runs, vb, lb);
    let d = (8 * n - (k + 1) * w) as nat;
    assert((k + 1) * w >= count * w + w) by (nonlinear_arith)
        requires
            k >= count,
    ;
    assert(d + w <= pad);
    lemma_shift_partial(s, pad, d);
    lemma_shifted_low_bits(s, (pad - d) as nat, lb);
    assert((8 * payload.len() - (k * w + vb) - lb) as nat == d) by (nonlinear_arith)
        requires
            payload.len() == n,
            d == 8 * n - (k + 1) * w,
            w == vb + lb,
    ;
}

/// The first `k` field pairs of a payload hold the first `k` runs, and all of
/// them where `k` reaches into the padding.
pub proof fn lemma_unpacked_prefix_of_packed(runs: Seq<(u16, u16)>, vb: nat, lb: nat, k: nat)
    requires
        runs_fit(runs, vb, lb),
        runs_nonempty(runs),
        k * (vb + lb) <= 8 * byte_len(runs.len() * (vb + lb)),
    ensures
        unpacked_prefix(packed_with(runs, vb, lb), vb, lb, k) == if k <= runs.len() {
            runs.take(k as int)
        } else {
            runs
        },
    decreases k,
{
    let payload = packed_with(runs, vb, lb);
    if k == 0 {
        assert(runs.take(0) == Seq::<(u16, u16)>::empty());
    } else {
        let j = (k - 1) as nat;
        assert(j * (vb + lb) <= k * (vb + lb)) by (nonlinear_arith)
            requires
                j <= k,
        ;
        lemma_unpacked_prefix_of_packed(runs, vb, lb, j);
        if j < runs.len() {
            lemma_run_at_inside(runs, vb, lb, j);
            assert(runs[j as int].1 >= 1);
            assert(runs.take(k as int) == runs.take(j as int).push(runs[j as int]));
        } else {
            lemma_run_at_padding(runs, vb, lb, j);
            if j == runs.len() {
                assert(runs.take(j as int) == runs);
            }
        }
    }
}

/// Unpacking the payload of a block gives back the runs that were packed:
/// for all runs of at least one node each, read with the widths that the
/// block's header carries.
pub proof fn theorem_unpack_packed(runs: Seq<(u16, u16)>)
    requires
        runs_nonempty(runs),
    ensures
        unpacked_runs(packed_payload(runs), value_bits(runs), length_bits(runs)) == runs,
        packed_payload(runs).len() == payload_len(runs),
{
    let vb = value_bits(runs);
    let lb = length_bits(runs);
    let w = vb + lb;
    let payload = packed_payload(runs);
    lemma_widths(runs);
    assert(payload == packed_with(runs, vb, lb));
    lemma_payload_value(runs, vb, lb);
    if lb == 0 {
        if runs.len() > 0 {
            lemma_max_bounds(runs, 0);
            assert(runs[0].1 >= 1);
            assert(max_length(runs) >= 1);
            assert(crate::encode::bits_needed(max_length(runs)) >= 1);
        }
        assert(runs =~= Seq::<(u16, u16)>::empty());
    } else {
        let total = 8 * payload.len();
        let k = field_count(payload, vb, lb);
        vstd::arithmetic::div_mod::lemma_fundamental_div_mod(total as int, w as int);
        let m0 = total % w;
        assert(k * w <= total) by (nonlinear_arith)
            requires
                total == w * k + m0,
                m0 >= 0,
        ;
        assert(k >= runs.len()) by {
            if k < runs.len() {
                assert((k + 1) * w <= runs.len() * w) by (nonlinear_arith)
                    requires
                        k + 1 <= runs.len(),
                ;
                vstd::arithmetic::div_mod::lemma_mod_bound(total as int, w as int);
                let m = total % w;
                assert(total < (k + 1) * w) by (nonlinear_arith)
                    requires
                        total == w * k + m,
                        m < w,
                ;
            }
        }
        lemma_unpacked_prefix_of_packed(runs, vb, lb, k);
        if k == runs.len() {
            assert(runs.take(k as int) == runs);
        }
    }
}

/// A block that is followed by anything is read back as its runs and its own
/// length.
pub proof fn lemma_parse_encoded_block(runs: Seq<(u16, u16)>, rest: Seq<u8>)
    requires
        runs_nonempty(runs),
        payload_len(runs) <= u32::MAX,
    ensures
        ben_block(runs).len() == 6 + payload_len(runs),
        parse_block(ben_block(runs) + rest) == Ok::<(Seq<(u16, u16)>, nat), CodecError>(
            (runs, ben_block(runs).len()),
        ),
{
    let block = ben_block(runs);
    let bytes = block + rest;
    let n = payload_len(runs);
    lemma_widths(runs);
    lemma2_to64();
    lemma_be_value_of_bytes(n, 4);
    theorem_unpack_packed(runs);
    assert(block.len() == 6 + n);
    assert(bytes[0] == value_bits(runs));
    assert(bytes[1] == length_bits(runs));
    assert(bytes.subrange(2, 6) =~= be_bytes(n, 4));
    assert(bytes.subrange(6, 6 + n as int) =~= packed_payload(runs));
}

/// The bytes of items, the first item apart.
pub proof fn lemma_join_front(items: Seq<Result<Seq<u8>, CodecError>>)
    requires
        items.len() > 0,
    ensures
        join_results(items) == match items.first() {
            Err(e) => Err(e),
            Ok(bytes) => after_bytes(bytes, join_results(items.drop_first())),
        },
    decreases items.len(),
{
    let init = items.drop_last();
    let tail = items.drop_first();
    if items.len() == 1 {
        assert(init.len() == 0);
        assert(tail.len() == 0);
        assert(join_results(init) == Ok::<Seq<u8>, CodecError>(Seq::empty()));
        match items.first() {
            Ok(bytes) => {
                assert(Seq::<u8>::empty() + bytes == bytes + Seq::<u8>::empty());
            },
            Err(e) => {},
        }
    } else {
        lemma_join_front(init);
        assert(init.first() == items.first());
        assert(tail.drop_last() == init.drop_first());
        assert(tail.last() == items.last());
        match items.first() {
            Ok(bytes) => {
                match join_results(init.drop_first()) {
                    Ok(middle) => {
                        match items.last() {
                            Ok(end) => {
                                assert((bytes + middle) + end == bytes + (middle + end));
                            },
                            Err(e) => {},
                        }
                    },
                    Err(e) => {},
                }
            },
            Err(e) => {},
        }
    }
}

/// The staging form of samples, the first sample apart.
pub proof fn lemma_ben32_stream_front(blocks: Seq<Seq<(u16, u16)>>)
    requires
        blocks.len() > 0,
    ensures
        ben32_stream(blocks) == ben32_block(blocks.first()) + ben32_stream(blocks.drop_first()),
    decreases blocks.len(),
{
    let init = blocks.drop_last();
    let tail = blocks.drop_first();
    if blocks.len() == 1 {
        assert(init.len() == 0);
        assert(tail.len() == 0);
        assert(ben32_stream(init) + ben32_block(blocks.last()) == ben32_block(blocks.first())
            + ben32_stream(tail));
    } else {
        lemma_ben32_stream_front(init);
        assert(init.first() == blocks.first());
        assert(tail.drop_last() == init.drop_first());
        assert(tail.last() == blocks.last());
        assert((ben32_block(blocks.first()) + ben32_stream(init.drop_first())) + ben32_block(
            blocks.last(),
        ) == ben32_block(blocks.first()) + (ben32_stream(init.drop_first()) + ben32_block(
            blocks.last(),
        )));
    }
}

/// The words of runs, the first run apart.
pub proof fn lemma_ben32_records_front(runs: Seq<(u16, u16)>)
    requires
        runs.len() > 0,
    ensures
        ben32_records(runs) == be_bytes(ben32_word(runs.first()), 4) + ben32_records(
            runs.drop_first(),
        ),
    decreases runs.len(),
{
    let init = runs.drop_last();
    let tail = runs.drop_first();
    if runs.len() == 1 {
        assert(init.len() == 0);
        assert(tail.len() == 0);
        assert(ben32_records(init) + be_bytes(ben32_word(runs.last()), 4) == be_bytes(
            ben32_word(runs.first()),
            4,
        ) + ben32_records(tail));
    } else {
        lemma_ben32_records_front(init);
        assert(init.first() == runs.first());
        assert(tail.drop_last() == init.drop_first());
        assert(tail.last() == runs.last());
        assert((be_bytes(ben32_word(runs.first()), 4) + ben32_records(init.drop_first()))
            + be_bytes(ben32_word(runs.last()), 4) == be_bytes(ben32_word(runs.first()), 4) + (
        ben32_records(init.drop_first()) + be_bytes(ben32_word(runs.last()), 4)));
    }
}

/// The word of zero ends a sample without doubt: the staging form of runs of
/// at least one node each, followed by anything, is read back as those runs
/// and its own length.
pub proof fn theorem_ben32_terminator(runs: Seq<(u16, u16)>, rest: Seq<u8>)
    requires
        runs_nonempty(runs),
    ensures
        forall|i: int| 0 <= i < runs.len() ==> ben32_word(#[trigger] runs[i]) != 0,
        ben32_block(runs).len() == 4 * (runs.len() + 1),
        parse_ben32(ben32_block(runs) + rest) == Ok::<(Seq<(u16, u16)>, nat), CodecError>(
            (runs, ben32_block(runs).len()),
        ),
    decreases runs.len(),
{
    let bytes = ben32_block(runs) + rest;
    assert forall|i: int| 0 <= i < runs.len() implies ben32_word(#[trigger] runs[i]) != 0 by {
        lemma_ben32_word(runs[i]);
    }
    if runs.len() == 0 {
        assert(ben32_records(runs).len() == 0);
        assert(runs =~= Seq::<(u16, u16)>::empty());
        assert(bytes.take(4) =~= ben32_end());
        assert(be_value(ben32_end()) == 0) by {
            lemma_be_bytes_zero();
            lemma2_to64();
            lemma_be_value_of_bytes(0, 4);
        }
    } else {
        let first = runs.first();
        let tail = runs.drop_first();
        let word = be_bytes(ben32_word(first), 4);
        lemma_ben32_records_front(runs);
        lemma_ben32_word(first);
        assert(runs_nonempty(tail)) by {
            assert forall|i: int| 0 <= i < tail.len() implies (#[trigger] tail[i]).1 >= 1 by {
                assert(tail[i] == runs[i + 1]);
            }
        }
        theorem_ben32_terminator(tail, rest);
        assert(bytes =~= word + (ben32_block(tail) + rest));
        assert(bytes.take(4) =~= word);
        assert(bytes.skip(4) =~= ben32_block(tail) + rest);
        assert(seq![first] + tail =~= runs);
        assert(ben32_block(runs) =~= word + ben32_block(tail));
        assert(be_value(bytes.take(4)) == ben32_word(first));
        assert(run_of_word(ben32_word(first)) == first);
        assert(parse_ben32(bytes.skip(4)) == Ok::<(Seq<(u16, u16)>, nat), CodecError>(
            (tail, ben32_block(tail).len()),
        ));
    }
}

/// The block of each sample, given by its runs, or why it has none.
pub open spec fn run_blocks(blocks: Seq<Seq<(u16, u16)>>) -> Seq<Result<Seq<u8>, CodecError>> {
    Seq::new(blocks.len(), |i: int| block_of_runs(blocks[i]))
}

/// Every sample's runs cover at least one node each.
pub open spec fn all_nonempty(blocks: Seq<Seq<(u16, u16)>>) -> bool {
    forall|i: int| 0 <= i < blocks.len() ==> runs_nonempty(#[trigger] blocks[i])
}

/// Bytes that open with the marker are seen to do so, and what follows the
/// marker is what was put behind it.
pub proof fn lemma_magic_prefix(body: Seq<u8>)
    ensures
        has_magic(magic() + body),
        (magic() + body).skip(17) == body,
{
    assert((magic() + body).take(17) =~= magic());
    assert((magic() + body).skip(17) =~= body);
}

/// The blocks of samples, one after the other, are read back as the runs of
/// the samples.
pub proof fn lemma_parse_joined_blocks(blocks: Seq<Seq<(u16, u16)>>, body: Seq<u8>)
    requires
        all_nonempty(blocks),
        join_results(run_blocks(blocks)) == Ok::<Seq<u8>, CodecError>(body),
    ensures
        parse_blocks(body) == Ok::<Seq<Seq<(u16, u16)>>, CodecError>(blocks),
    decreases blocks.len(),
{
    let items = run_blocks(blocks);
    if blocks.len() == 0 {
        assert(blocks =~= Seq::<Seq<(u16, u16)>>::empty());
    } else {
        let tail = blocks.drop_first();
        lemma_join_front(items);
        assert(items.first() == block_of_runs(blocks[0]));
        assert(items.drop_first() =~= run_blocks(tail));
        let first = ben_block(blocks[0]);
        let rest = join_results(run_blocks(tail))->Ok_0;
        assert(body == first + rest);
        assert(all_nonempty(tail)) by {
            assert forall|i: int| 0 <= i < tail.len() implies runs_nonempty(#[trigger] tail[i]) by {
                assert(tail[i] == blocks[i + 1]);
            }
        }
        lemma_parse_joined_blocks(tail, rest);
        lemma_parse_encoded_block(blocks[0], rest);
        assert(body.skip(first.len() as int) =~= rest);
        assert(seq![blocks[0]] + tail =~= blocks);
    }
}

/// Translating the staging form of samples gives the blocks of the samples,
/// and fails where the first of them is too large for a block.
pub proof fn lemma_ben_of_encoded_ben32(blocks: Seq<Seq<(u16, u16)>>)
    requires
        all_nonempty(blocks),
    ensures
        ben_of_ben32(ben32_stream(blocks)) == join_results(run_blocks(blocks)),
    decreases blocks.len(),
{
    let items = run_blocks(blocks);
    let stream = ben32_stream(blocks);
    if blocks.len() > 0 {
        let tail = blocks.drop_first();
        let later = ben32_stream(tail);
        lemma_ben32_stream_front(blocks);
        theorem_ben32_terminator(blocks[0], later);
        lemma_join_front(items);
        assert(items.first() == block_of_runs(blocks[0]));
        assert(items.drop_first() =~= run_blocks(tail));
        assert(all_nonempty(tail)) by {
            assert forall|i: int| 0 <= i < tail.len() implies runs_nonempty(#[trigger] tail[i]) by {
                assert(tail[i] == blocks[i + 1]);
            }
        }
        lemma_ben_of_encoded_ben32(tail);
        assert(stream.skip(ben32_block(blocks[0]).len() as int) =~= later);
    }
}

/// The runs of samples cover at least one node each, and the blocks of the
/// samples are the blocks of their runs.
pub proof fn lemma_sample_runs(samples: Seq<Seq<u16>>)
    ensures
        all_nonempty(sample_runs(samples)),
        sample_blocks(samples) == run_blocks(sample_runs(samples)),
        expand_all(sample_runs(samples)) == samples,
{
    assert forall|i: int| 0 <= i < samples.len() implies runs_nonempty(
        #[trigger] sample_runs(samples)[i],
    ) && expand(sample_runs(samples)[i]) == samples[i] by {
        lemma_rle_roundtrip(samples[i]);
    }
    assert(sample_blocks(samples) =~= run_blocks(sample_runs(samples)));
    assert(expand_all(sample_runs(samples)) =~= samples);
}

/// Decoding the BEN file of samples gives the samples back: for all samples,
/// of any length and with any labels, whose blocks fit the format.
pub proof fn theorem_ben_roundtrip(samples: Seq<Seq<u16>>)
    ensures
        ben_of_samples(samples) matches Ok(ben) ==> decoded_ben(ben) == Ok::<
            Seq<Seq<u16>>,
            CodecError,
        >(samples),
{
    if let Ok(ben) = ben_of_samples(samples) {
        let body = join_results(sample_blocks(samples))->Ok_0;
        lemma_sample_runs(samples);
        lemma_parse_joined_blocks(sample_runs(samples), body);
        lemma_magic_prefix(body);
    }
}

/// Translating the BEN file of samples into the staging form gives what the
/// XBEN file of the same samples holds before compression.
pub proof fn theorem_ben_to_ben32(samples: Seq<Seq<u16>>)
    ensures
        ben_of_samples(samples) matches Ok(ben) ==> ben32_file_of_ben(ben) == Ok::<
            Seq<u8>,
            CodecError,
        >(ben32_of_samples(samples)),
{
    if let Ok(ben) = ben_of_samples(samples) {
        let body = join_results(sample_blocks(samples))->Ok_0;
        lemma_sample_runs(samples);
        lemma_parse_joined_blocks(sample_runs(samples), body);
        lemma_magic_prefix(body);
    }
}

/// Translating what the XBEN file of samples holds before compression gives
/// the BEN file of the same samples, and fails as encoding them does.
pub proof fn theorem_ben32_to_ben(samples: Seq<Seq<u16>>)
    ensures
        ben_file_of_ben32(ben32_of_samples(samples)) == ben_of_samples(samples),
{
    lemma_sample_runs(samples);
    lemma_ben_of_encoded_ben32(sample_runs(samples));
    lemma_magic_prefix(ben32_stream(sample_runs(samples)));
}

/// Decoding what the XBEN file of samples holds gives the samples back, by
/// way of the BEN file: for all samples whose blocks fit the format.
pub proof fn theorem_ben32_roundtrip(samples: Seq<Seq<u16>>)
    ensures
        ben_of_samples(samples) is Ok ==> decoded_ben32(ben32_of_samples(samples)) == Ok::<
            Seq<Seq<u16>>,
            CodecError,
        >(samples),
{
    theorem_ben32_to_ben(samples);
    theorem_ben_roundtrip(samples);
}

/// Lines that hold the samples encode as the samples do.
pub proof fn theorem_lines_as_samples(lines: Seq<String>, samples: Seq<Seq<u16>>)
    requires
        lines.len() == samples.len(),
        forall|i: int|
            0 <= i < lines.len() ==> line_labels(#[trigger] lines[i]@) == Some(samples[i]),
    ensures
        ben_of_lines(lines) == ben_of_samples(samples),
        ben32_of_lines(lines) == Ok::<Seq<u8>, CodecError>(ben32_of_samples(samples)),
{
    assert(line_blocks(lines) =~= sample_blocks(samples));
    lemma_joined_ben32(lines, samples);
}

/// Decoding what was encoded from lines of JSON gives the samples on the
/// lines back, through the BEN file and through what the XBEN file holds; and
/// through the XBEN file itself where decompressing undoes compressing, which
/// is the compressor's to keep.
pub proof fn theorem_jsonl_roundtrip(lines: Seq<String>, samples: Seq<Seq<u16>>)
    requires
        lines.len() == samples.len(),
        forall|i: int|
            0 <= i < lines.len() ==> line_labels(#[trigger] lines[i]@) == Some(samples[i]),
    ensures
        ben_of_lines(lines) matches Ok(ben) ==> decoded_ben(ben) == Ok::<
            Seq<Seq<u16>>,
            CodecError,
        >(samples),
        ben32_of_lines(lines) matches Ok(ben32) && ben_file_of_ben32(ben32) == ben_of_lines(lines),
        ben_of_lines(lines) is Ok ==> decoded_ben32(ben32_of_lines(lines)->Ok_0) == Ok::<
            Seq<Seq<u16>>,
            CodecError,
        >(samples),
        ben_of_lines(lines) is Ok && xz_decoded(
            xz_encoded(ben32_of_lines(lines)->Ok_0, XZ_LEVEL),
        ) == ben32_of_lines(lines)->Ok_0 ==> decoded_ben32(
            xz_decoded(xz_encoded(ben32_of_lines(lines)->Ok_0, XZ_LEVEL)),
        ) == Ok::<Seq<Seq<u16>>, CodecError>(samples),
{
    theorem_lines_as_samples(lines, samples);
    theorem_ben_roundtrip(samples);
    theorem_ben32_to_ben(samples);
}

/// The staging forms of lines that hold the samples are the staging form of
/// the samples.
pub proof fn lemma_joined_ben32(lines: Seq<String>, samples: Seq<Seq<u16>>)
    requires
        lines.len() == samples.len(),
        forall|i: int|
            0 <= i < lines.len() ==> line_labels(#[trigger] lines[i]@) == Some(samples[i]),
    ensures
        join_results(line_ben32s(lines)) == Ok::<Seq<u8>, CodecError>(
            ben32_stream(sample_runs(samples)),
        ),
    decreases lines.len(),
{
    if lines.len() > 0 {
        let n = lines.len() - 1;
        lemma_joined_ben32(lines.drop_last(), samples.drop_last());
        assert(line_ben32s(lines).drop_last() =~= line_ben32s(lines.drop_last()));
        assert(sample_runs(samples).drop_last() =~= sample_runs(samples.drop_last()));
        assert(line_ben32s(lines).last() == line_ben32(lines[n]@));
        assert(sample_runs(samples).last() == rle_of(samples[n]));
    } else {
        assert(sample_runs(samples).len() == 0);
    }
}

/// The widths of a block are the least that hold its runs: the largest value
/// fits the value's width and no narrower one, but for the one bit that a
/// value of zero is given; the largest length fits the length's width and no
/// narrower one.
pub proof fn theorem_widths_minimal(runs: Seq<(u16, u16)>)
    ensures
        1 <= value_bits(runs) <= 16,
        max_value(runs) < pow2(value_bits(runs)),
        value_bits(runs) > 1 ==> pow2((value_bits(runs) - 1) as nat) <= max_value(runs),
        length_bits(runs) <= 16,
        max_length(runs) < pow2(length_bits(runs)),
        length_bits(runs) > 0 ==> pow2((length_bits(runs) - 1) as nat) <= max_length(runs),
{
    lemma_widths(runs);
    lemma_bits_needed_minimal(max_value(runs));
    lemma_bits_needed_minimal(max_length(runs));
    lemma2_to64();
}

/// The header of a block carries the widths of its runs, and the runs read
/// back from the block have the same widths.
pub proof fn theorem_header_widths(runs: Seq<(u16, u16)>)
    requires
        runs_nonempty(runs),
        payload_len(runs) <= u32::MAX,
    ensures
        ben_block(runs)[0] == value_bits(runs),
        ben_block(runs)[1] == length_bits(runs),
        parse_block(ben_block(runs)) matches Ok((decoded, used)) && value_bits(decoded)
            == ben_block(runs)[0] && length_bits(decoded) == ben_block(runs)[1],
{
    lemma_widths(runs);
    lemma_parse_encoded_block(runs, Seq::empty());
    assert(ben_block(runs) + Seq::<u8>::empty() =~= ben_block(runs));
}

/// The length field of a block holds the number of payload bytes: the bits
/// of the runs, rounded up to whole bytes.
pub proof fn theorem_block_length(runs: Seq<(u16, u16)>)
    requires
        payload_len(runs) <= u32::MAX,
    ensures
        be_value(ben_block(runs).subrange(2, 6)) == payload_len(runs),
        ben_block(runs).len() == 6 + payload_len(runs),
        packed_payload(runs).len() == payload_len(runs),
        8 * payload_len(runs) >= runs.len() * (value_bits(runs) + length_bits(runs)),
        8 * payload_len(runs) < runs.len() * (value_bits(runs) + length_bits(runs)) + 8,
{
    let n = payload_len(runs);
    lemma2_to64();
    lemma_be_value_of_bytes(n, 4);
    lemma_be_value_of_bytes(
        packed_value(runs, value_bits(runs), length_bits(runs)) * pow2(
            pad_bits(payload_bits(runs)),
        ),
        n,
    );
    assert(ben_block(runs).subrange(2, 6) =~= be_bytes(n, 4));
}

/// Bytes that do not open with the marker are refused as such, whatever
/// follows, by every decoder and translator of files.
pub proof fn theorem_bad_header(bytes: Seq<u8>)
    requires
        !has_magic(bytes),
    ensures
        decoded_ben(bytes) == Err::<Seq<Seq<u16>>, CodecError>(CodecError::Format),
        decoded_ben32(bytes) == Err::<Seq<Seq<u16>>, CodecError>(CodecError::Format),
        ben32_file_of_ben(bytes) == Err::<Seq<u8>, CodecError>(CodecError::Format),
        ben_file_of_ben32(bytes) == Err::<Seq<u8>, CodecError>(CodecError::Format),
{
}

} // verus!
