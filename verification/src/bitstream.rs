//! Bit streams as numbers.
//!
//! A byte buffer is read as one big-endian number: its first byte holds the
//! most significant bits. A field of `width` bits that starts `start` bits into
//! the buffer is then a quotient and a remainder by powers of two, and writing
//! a field after what was written so far is a multiplication and an addition.

use vstd::arithmetic::div_mod::{lemma_fundamental_div_mod, lemma_fundamental_div_mod_converse};
use vstd::arithmetic::power2::{lemma2_to64, lemma_pow2_adds, lemma_pow2_pos, pow2};
use vstd::prelude::*;

verus! {

/// The number that `bytes` spell, most significant byte first.
pub open spec fn be_value(bytes: Seq<u8>) -> nat
    decreases bytes.len(),
{
    if bytes.len() == 0 {
        0
    } else {
        be_value(bytes.drop_last()) * 256 + bytes.last() as nat
    }
}

/// The `len` bytes that spell `value` modulo `256^len`, most significant byte
/// first.
pub open spec fn be_bytes(value: nat, len: nat) -> Seq<u8>
    decreases len,
{
    if len == 0 {
        Seq::empty()
    } else {
        be_bytes(value / 256, (len - 1) as nat).push((value % 256) as u8)
    }
}

/// The field of `width` bits that starts `start` bits into `data`, as a number.
pub open spec fn bits_at(data: Seq<u8>, start: nat, width: nat) -> nat
    recommends
        start + width <= 8 * data.len(),
{
    (be_value(data) / pow2((8 * data.len() - start - width) as nat)) % pow2(width)
}

/// The number of bytes that hold `bits` bits.
pub open spec fn byte_len(bits: nat) -> nat {
    (bits + 7) / 8
}

/// The number of unused bits in the last of the bytes that hold `bits` bits.
pub open spec fn pad_bits(bits: nat) -> nat {
    (8 * byte_len(bits) - bits) as nat
}

/// Dividing `q * d + r` by `d`, where `r < d`, gives `q` and leaves `r`.
pub proof fn lemma_div_mod_split(q: nat, r: nat, d: nat)
    requires
        r < d,
    ensures
        (q * d + r) / d == q,
        (q * d + r) % d == r,
{
    lemma_fundamental_div_mod_converse((q * d + r) as int, d as int, q as int, r as int);
}

/// `2^(a+b) == 2^a * 2^b`, and powers of two are positive.
pub proof fn lemma_pow2_sum(a: nat, b: nat)
    ensures
        pow2(a + b) == pow2(a) * pow2(b),
        pow2(a) > 0,
        pow2(b) > 0,
        pow2(a + b) > 0,
{
    lemma_pow2_adds(a, b);
    lemma_pow2_pos(a);
    lemma_pow2_pos(b);
    lemma_pow2_pos(a + b);
}

/// `2^a <= 2^b` where `a <= b`.
pub proof fn lemma_pow2_monotone(a: nat, b: nat)
    requires
        a <= b,
    ensures
        pow2(a) <= pow2(b),
{
    lemma_pow2_sum(a, (b - a) as nat);
    let x = pow2(a);
    let y = pow2((b - a) as nat);
    assert(x <= x * y) by (nonlinear_arith)
        requires
            x > 0,
            y > 0,
    ;
}

/// A buffer of `n` bytes spells a number below `2^(8n)`.
pub proof fn lemma_be_value_bound(bytes: Seq<u8>)
    ensures
        be_value(bytes) < pow2(8 * bytes.len()),
    decreases bytes.len(),
{
    lemma2_to64();
    if bytes.len() > 0 {
        lemma_be_value_bound(bytes.drop_last());
        lemma_pow2_sum((8 * (bytes.len() - 1)) as nat, 8);
        assert(8 * (bytes.len() - 1) + 8 == 8 * bytes.len());
    }
}

/// The number spelt by two buffers, one after the other.
pub proof fn lemma_be_value_concat(a: Seq<u8>, b: Seq<u8>)
    ensures
        be_value(a + b) == be_value(a) * pow2(8 * b.len()) + be_value(b),
    decreases b.len(),
{
    lemma2_to64();
    if b.len() == 0 {
        assert(a + b == a);
        assert(pow2(8 * b.len()) == 1);
    } else {
        let init = b.drop_last();
        assert((a + b).drop_last() == a + init);
        assert((a + b).last() == b.last());
        lemma_be_value_concat(a, init);
        lemma_pow2_sum(8 * init.len(), 8);
        assert(8 * init.len() + 8 == 8 * b.len());
        let x = be_value(a);
        let p = pow2(8 * init.len());
        let y = be_value(init);
        assert((x * p + y) * 256 == x * (p * 256) + y * 256) by (nonlinear_arith);
        assert(be_value(a + b) == be_value(a + init) * 256 + b.last() as nat);
        assert(be_value(b) == y * 256 + b.last() as nat);
        assert(pow2(8 * b.len()) == p * 256);
    }
}

/// The first `k` bytes of a buffer spell the number of the whole buffer
/// shifted right by the bits that follow them.
pub proof fn lemma_be_value_take(bytes: Seq<u8>, k: nat)
    requires
        k <= bytes.len(),
    ensures
        be_value(bytes.take(k as int)) == be_value(bytes) / pow2((8 * (bytes.len() - k)) as nat),
        be_value(bytes.skip(k as int)) == be_value(bytes) % pow2((8 * (bytes.len() - k)) as nat),
{
    let head = bytes.take(k as int);
    let tail = bytes.skip(k as int);
    assert(bytes == head + tail);
    lemma_be_value_concat(head, tail);
    lemma_be_value_bound(tail);
    lemma_div_mod_split(be_value(head), be_value(tail), pow2(8 * tail.len()));
}

/// Writing out the number that a buffer spells gives the buffer back.
pub proof fn lemma_be_bytes_of_value(bytes: Seq<u8>)
    ensures
        be_bytes(be_value(bytes), bytes.len()) == bytes,
    decreases bytes.len(),
{
    if bytes.len() > 0 {
        let init = bytes.drop_last();
        lemma_be_bytes_of_value(init);
        lemma_div_mod_split(be_value(init), bytes.last() as nat, 256);
        assert(init.push(bytes.last()) == bytes);
    }
}

/// Reading back the bytes written for a number that fits gives the number.
pub proof fn lemma_be_value_of_bytes(value: nat, len: nat)
    ensures
        be_bytes(value, len).len() == len,
        value < pow2(8 * len) ==> be_value(be_bytes(value, len)) == value,
    decreases len,
{
    lemma2_to64();
    if len > 0 {
        let rest = (len - 1) as nat;
        lemma_be_value_of_bytes(value / 256, rest);
        lemma_pow2_sum(8 * rest, 8);
        assert(8 * rest + 8 == 8 * len);
        let out = be_bytes(value, len);
        assert(out.drop_last() == be_bytes(value / 256, rest));
        if value < pow2(8 * len) {
            lemma_fundamental_div_mod(value as int, 256);
            let p = pow2(8 * rest);
            let q = value / 256;
            assert(q < p) by (nonlinear_arith)
                requires
                    value < p * 256,
                    q == value / 256,
            ;
        }
    }
}

/// The four bytes of a 32-bit word, most significant first.
pub proof fn lemma_be_bytes_u32(word: u32)
    ensures
        be_bytes(word as nat, 4) == seq![
            (word >> 24) as u8,
            ((word >> 16) & 0xFF) as u8,
            ((word >> 8) & 0xFF) as u8,
            (word & 0xFF) as u8,
        ],
{
    reveal_with_fuel(be_bytes, 5);
    assert((word >> 24) == word / 256 / 256 / 256 && (word >> 24) < 256) by (bit_vector);
    assert(((word >> 16) & 0xFF) == word / 256 / 256 % 256) by (bit_vector);
    assert(((word >> 8) & 0xFF) == word / 256 % 256) by (bit_vector);
    assert((word & 0xFF) == word % 256) by (bit_vector);
    let w = word as nat;
    assert(w / 256 / 256 / 256 < 256);
    assert((w / 256 / 256 / 256) % 256 == w / 256 / 256 / 256);
    assert(be_bytes(w, 4) =~= seq![
        (word >> 24) as u8,
        ((word >> 16) & 0xFF) as u8,
        ((word >> 8) & 0xFF) as u8,
        (word & 0xFF) as u8,
    ]);
}

/// Appends the four bytes of `word`, most significant first.
pub fn push_u32_be(out: &mut Vec<u8>, word: u32)
    ensures
        final(out)@ == old(out)@ + be_bytes(word as nat, 4),
{
    proof {
        lemma_be_bytes_u32(word);
    }
    out.push((word >> 24) as u8);
    out.push(((word >> 16) & 0xFF) as u8);
    out.push(((word >> 8) & 0xFF) as u8);
    out.push((word & 0xFF) as u8);
    proof {
        assert(out@ =~= old(out)@ + be_bytes(word as nat, 4));
    }
}

/// Reads the four bytes at `pos` as a 32-bit word, most significant first.
pub fn read_u32_be(data: &[u8], pos: usize) -> (word: u32)
    requires
        pos + 4 <= data@.len(),
    ensures
        word == be_value(data@.subrange(pos as int, pos + 4)),
{
    let b0: u32 = data[pos] as u32;
    let b1: u32 = data[pos + 1] as u32;
    let b2: u32 = data[pos + 2] as u32;
    let b3: u32 = data[pos + 3] as u32;
    proof {
        let s = data@.subrange(pos as int, pos + 4);
        reveal_with_fuel(be_value, 5);
        let s3 = s.drop_last();
        let s2 = s3.drop_last();
        let s1 = s2.drop_last();
        assert(s1.drop_last().len() == 0);
        assert(be_value(s) == ((b0 * 256 + b1) * 256 + b2) * 256 + b3);
        assert((b0 << 24 | b1 << 16 | b2 << 8 | b3) == ((b0 * 256 + b1) * 256 + b2) * 256 + b3)
            by (bit_vector)
            requires
                b0 < 256,
                b1 < 256,
                b2 < 256,
                b3 < 256,
        ;
    }
    b0 << 24 | b1 << 16 | b2 << 8 | b3
}

} // verus!
