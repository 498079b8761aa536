//! Writing fields of up to sixteen bits into a byte buffer, and reading them
//! back, most significant bit first and with no padding between fields.

use crate::bitstream::{
    be_bytes,
    be_value,
    bits_at,
    byte_len,
    lemma_be_bytes_of_value,
    lemma_be_value_take,
    lemma_div_mod_split,
    lemma_pow2_monotone,
    lemma_pow2_sum,
    pad_bits,
};
use vstd::arithmetic::div_mod::{
    lemma_div_denominator,
    lemma_fundamental_div_mod,
    lemma_mod_breakdown,
    lemma_mod_mod,
};
use vstd::arithmetic::power2::{lemma2_to64, pow2};
use vstd::bits::{
    lemma_u32_low_bits_mask_is_mod,
    lemma_u32_shl_is_mul,
    lemma_u32_shr_is_div,
    low_bits_mask,
};
use vstd::prelude::*;

verus! {

/// `1 << s` is `2^s`, for shifts that stay inside 32 bits.
pub proof fn lemma_one_shl(s: u32)
    requires
        s < 32,
    ensures
        (1u32 << s) == pow2(s as nat),
        0 < pow2(s as nat) <= 0x8000_0000,
{
    lemma_pow2_sum(s as nat, 0);
    lemma2_to64();
    lemma_pow2_monotone(s as nat, 31);
    lemma_u32_shl_is_mul(1u32, s);
}

/// Shifting a short accumulator left and filling the freed bits with a field
/// that fits them is a multiplication and an addition.
pub proof fn lemma_shift_in(acc: u32, field: u32, width: u32)
    requires
        acc < 0x1_0000,
        width <= 16,
        field < pow2(width as nat),
    ensures
        ((acc << width) | field) == acc * pow2(width as nat) + field,
{
    lemma_one_shl(width);
    lemma2_to64();
    lemma_pow2_monotone(width as nat, 16);
    let p = pow2(width as nat);
    assert(acc * p <= 0xFFFF * 0x1_0000) by (nonlinear_arith)
        requires
            acc <= 0xFFFF,
            p <= 0x1_0000,
    ;
    lemma_u32_shl_is_mul(acc, width);
    let one = 1u32 << width;
    assert(((acc << width) | field) == (acc << width) + field) by (bit_vector)
        requires
            acc < 0x1_0000,
            width <= 16,
            one == 1u32 << width,
            field < one,
    ;
}

/// Splitting an accumulator at bit `s`: the shift gives the quotient and the
/// mask gives the remainder by `2^s`.
pub proof fn lemma_split_at(acc: u32, s: u32)
    requires
        s < 32,
    ensures
        (acc >> s) == acc as nat / pow2(s as nat),
        (acc & !(0xFFFF_FFFFu32 << s)) == acc as nat % pow2(s as nat),
        acc as nat == (acc as nat / pow2(s as nat)) * pow2(s as nat) + acc as nat % pow2(s as nat),
{
    lemma_one_shl(s);
    lemma_u32_shr_is_div(acc, s);
    let one = 1u32 << s;
    assert(!(0xFFFF_FFFFu32 << s) == one - 1) by (bit_vector)
        requires
            s < 32,
            one == 1u32 << s,
    ;
    assert(low_bits_mask(s as nat) as u32 == !(0xFFFF_FFFFu32 << s));
    lemma_u32_low_bits_mask_is_mod(acc, s as nat);
    lemma_fundamental_div_mod(acc as int, pow2(s as nat) as int);
    let d = pow2(s as nat) as int;
    let q = acc as int / d;
    assert(d * q == q * d) by (nonlinear_arith);
}

/// A number below `2^(s+k)` has a quotient by `2^s` below `2^k`.
pub proof fn lemma_quotient_bound(x: nat, s: nat, k: nat)
    requires
        x < pow2(s + k),
    ensures
        x / pow2(s) < pow2(k),
{
    lemma_pow2_sum(s, k);
    let d = pow2(s);
    let m = pow2(k);
    lemma_fundamental_div_mod(x as int, d as int);
    let q = x / d;
    assert(q < m) by (nonlinear_arith)
        requires
            x < d * m,
            x == d * q + x % d,
            0 <= x % d,
            d > 0,
    ;
}

/// An accumulator of bits that have not yet filled a byte, behind the bytes
/// already written.
pub struct BitPacker {
    bytes: Vec<u8>,
    remainder: u32,
    remainder_bits: u8,
}

impl BitPacker {
    /// Fewer than eight bits wait in the accumulator, and it holds nothing
    /// above them.
    pub closed spec fn wf(&self) -> bool {
        &&& self.remainder_bits < 8
        &&& self.remainder < pow2(self.remainder_bits as nat)
    }

    /// The number of bits pushed so far.
    pub closed spec fn bit_len(&self) -> nat {
        8 * self.bytes@.len() + self.remainder_bits as nat
    }

    /// The number that the bits pushed so far spell, first bit most
    /// significant.
    pub closed spec fn value(&self) -> nat {
        be_value(self.bytes@) * pow2(self.remainder_bits as nat) + self.remainder as nat
    }

    /// A packer that holds no bits.
    pub fn new() -> (packer: BitPacker)
        ensures
            packer.wf(),
            packer.bit_len() == 0,
            packer.value() == 0,
    {
        let packer = BitPacker { bytes: Vec::new(), remainder: 0, remainder_bits: 0 };
        proof {
            lemma2_to64();
            assert(be_value(packer.bytes@) == 0);
            assert(0 * pow2(0) == 0) by (nonlinear_arith);
        }
        packer
    }

    /// Appends the low `width` bits of `bits`, which must hold nothing above
    /// them.
    pub fn push(&mut self, bits: u16, width: u8)
        requires
            old(self).wf(),
            width <= 16,
            bits < pow2(width as nat),
        ensures
            final(self).wf(),
            final(self).bit_len() == old(self).bit_len() + width,
            final(self).value() == old(self).value() * pow2(width as nat) + bits,
    {
        let ghost target = self.value() * pow2(width as nat) + bits as nat;
        let ghost total = self.bit_len() + width as nat;
        proof {
            lemma2_to64();
            lemma_pow2_monotone(self.remainder_bits as nat, 8);
            lemma_shift_in(self.remainder, bits as u32, width as u32);
            lemma_pow2_sum(self.remainder_bits as nat, width as nat);
            let o = be_value(self.bytes@);
            let pn = pow2(self.remainder_bits as nat);
            let pw = pow2(width as nat);
            let a = self.remainder as nat;
            let b = bits as nat;
            assert((o * pn + a) * pw + b == o * (pn * pw) + (a * pw + b)) by (nonlinear_arith);
            assert(a * pw + b < pn * pw) by (nonlinear_arith)
                requires
                    a < pn,
                    b < pw,
            ;
        }
        let mut new_val: u32 = (self.remainder << (width as u32)) | (bits as u32);
        let mut n_bits_left: u8 = self.remainder_bits + width;
        while n_bits_left >= 8
            invariant
                n_bits_left <= 23,
                new_val < pow2(n_bits_left as nat),
                be_value(self.bytes@) * pow2(n_bits_left as nat) + new_val == target,
                8 * self.bytes@.len() + n_bits_left == total,
            decreases n_bits_left,
        {
            let ghost written = self.bytes@;
            let ghost o = be_value(self.bytes@);
            n_bits_left -= 8;
            proof {
                lemma2_to64();
                lemma_split_at(new_val, n_bits_left as u32);
                lemma_pow2_sum(n_bits_left as nat, 8);
                lemma_quotient_bound(new_val as nat, n_bits_left as nat, 8);
            }
            let buff: u8 = (new_val >> (n_bits_left as u32)) as u8;
            self.bytes.push(buff);
            new_val = new_val & (!(0xFFFF_FFFFu32 << (n_bits_left as u32)));
            proof {
                let d = pow2(n_bits_left as nat);
                let q = buff as nat;
                let r = new_val as nat;
                assert(be_value(self.bytes@) == o * 256 + q) by {
                    assert(self.bytes@.last() == buff);
                    assert(self.bytes@.drop_last() == written);
                }
                assert((o * 256 + q) * d + r == o * (d * 256) + (q * d + r)) by (nonlinear_arith);
            }
        }
        self.remainder = new_val;
        self.remainder_bits = n_bits_left;
    }

    /// Ends the stream: a last byte takes the bits that wait, followed by
    /// zeros, and the bytes are handed out.
    pub fn flush(self) -> (bytes: Vec<u8>)
        requires
            self.wf(),
        ensures
            bytes@ == be_bytes(
                self.value() * pow2(pad_bits(self.bit_len())),
                byte_len(self.bit_len()),
            ),
            bytes@.len() == byte_len(self.bit_len()),
    {
        let mut bytes = self.bytes;
        let ghost o = be_value(bytes@);
        proof {
            lemma2_to64();
        }
        if self.remainder_bits > 0 {
            let shift: u8 = 8 - self.remainder_bits;
            proof {
                lemma_pow2_monotone(self.remainder_bits as nat, 8);
                lemma_pow2_monotone(shift as nat, 8);
                lemma_pow2_sum(self.remainder_bits as nat, shift as nat);
                let pn = pow2(self.remainder_bits as nat);
                let ps = pow2(shift as nat);
                let a = self.remainder as nat;
                assert(a * ps < pn * ps) by (nonlinear_arith)
                    requires
                        a < pn,
                        ps > 0,
                ;
                lemma_u32_shl_is_mul(self.remainder, shift as u32);
                assert((o * pn + a) * ps == o * (pn * ps) + a * ps) by (nonlinear_arith);
            }
            let buff: u8 = (self.remainder << (shift as u32)) as u8;
            bytes.push(buff);
            proof {
                assert(bytes@.drop_last() == self.bytes@);
                assert(be_value(bytes@) == o * 256 + buff as nat);
                assert(byte_len(self.bit_len()) == bytes@.len());
                assert(pad_bits(self.bit_len()) == shift);
                assert(be_value(bytes@) == self.value() * pow2(shift as nat));
            }
        } else {
            proof {
                assert(byte_len(self.bit_len()) == bytes@.len());
                assert(pad_bits(self.bit_len()) == 0);
                assert(self.value() == o) by (nonlinear_arith)
                    requires
                        self.value() == o * pow2(0) + 0,
                        pow2(0) == 1,
                ;
                assert(self.value() * pow2(0) == o) by (nonlinear_arith)
                    requires
                        self.value() == o,
                        pow2(0) == 1,
                ;
            }
        }
        proof {
            lemma_be_bytes_of_value(bytes@);
        }
        bytes
    }
}

/// Appending a byte to a buffer appends eight bits to what is left of the
/// number it spells after the bits above the low `n` are dropped.
pub proof fn lemma_load_byte(prefix: nat, byte: u8, n: nat)
    ensures
        (prefix * 256 + byte as nat) % pow2(n + 8) == (prefix % pow2(n)) * 256 + byte as nat,
{
    lemma2_to64();
    lemma_pow2_sum(n, 8);
    let d = pow2(n);
    lemma_fundamental_div_mod(prefix as int, d as int);
    let q = prefix / d;
    let r = prefix % d;
    let b = byte as nat;
    assert(prefix * 256 + b == q * (d * 256) + (r * 256 + b)) by (nonlinear_arith)
        requires
            prefix == d * q + r,
    ;
    lemma_div_mod_split(q, r * 256 + b, d * 256);
}

/// The `width` bits above the low `rest` bits of the low `rest + width` bits
/// of a number are the quotient by `2^rest`, modulo `2^width`.
pub proof fn lemma_middle_bits(x: nat, rest: nat, width: nat)
    ensures
        (x % pow2(rest + width)) / pow2(rest) == (x / pow2(rest)) % pow2(width),
        (x % pow2(rest + width)) % pow2(rest) == x % pow2(rest),
{
    lemma_pow2_sum(rest, width);
    let y = pow2(rest);
    let z = pow2(width);
    lemma_mod_breakdown(x as int, y as int, z as int);
    lemma_mod_mod(x as int, y as int, z as int);
    let hi = (x / y) % z;
    let lo = x % y;
    assert(y * hi == hi * y) by (nonlinear_arith);
    lemma_div_mod_split(hi, lo, y);
}

/// A cursor into a byte buffer that hands out fields of up to sixteen bits,
/// most significant bit first.
pub struct BitUnpacker<'a> {
    data: &'a [u8],
    pos: usize,
    buffer: u32,
    n_bits: u8,
}

impl<'a> BitUnpacker<'a> {
    /// Fewer than eight bits wait in the buffer: the low bits of the bytes
    /// read so far.
    pub closed spec fn wf(&self) -> bool {
        &&& self.pos <= self.data@.len()
        &&& self.n_bits < 8
        &&& self.n_bits as nat <= 8 * self.pos
        &&& self.buffer as nat == be_value(self.data@.take(self.pos as int)) % pow2(
            self.n_bits as nat,
        )
    }

    /// The bytes that are being read.
    pub closed spec fn source(&self) -> Seq<u8> {
        self.data@
    }

    /// The number of bits handed out so far.
    pub closed spec fn position(&self) -> nat {
        (8 * self.pos - self.n_bits) as nat
    }

    /// A cursor at the first bit of `data`.
    pub fn new(data: &'a [u8]) -> (unpacker: BitUnpacker<'a>)
        ensures
            unpacker.wf(),
            unpacker.source() == data@,
            unpacker.position() == 0,
    {
        proof {
            lemma2_to64();
            assert(data@.take(0).len() == 0);
        }
        BitUnpacker { data, pos: 0, buffer: 0, n_bits: 0 }
    }

    /// Hands out the next `width` bits as a number, or nothing, leaving the
    /// cursor where it is, where fewer than `width` bits are left.
    pub fn take(&mut self, width: u8) -> (field: Option<u16>)
        requires
            old(self).wf(),
            width <= 16,
        ensures
            final(self).wf(),
            final(self).source() == old(self).source(),
            match field {
                Some(bits) => {
                    &&& old(self).position() + width <= 8 * old(self).source().len()
                    &&& bits == bits_at(old(self).source(), old(self).position(), width as nat)
                    &&& final(self).position() == old(self).position() + width
                },
                None => {
                    &&& old(self).position() + width > 8 * old(self).source().len()
                    &&& final(self).position() == old(self).position()
                },
            },
    {
        let ghost start = self.position();
        let ghost len = self.data@.len();
        if width > self.n_bits {
            let missing: u8 = (width - self.n_bits + 7) / 8;
            if self.data.len() - self.pos < missing as usize {
                return None;
            }
        }
        while self.n_bits < width
            invariant
                self.data == old(self).data,
                self.pos <= self.data@.len(),
                self.n_bits <= 23,
                width <= 16,
                self.n_bits < width + 8,
                8 * self.pos - self.n_bits == start,
                start + width <= 8 * len,
                len == self.data@.len(),
                self.buffer as nat == be_value(self.data@.take(self.pos as int)) % pow2(
                    self.n_bits as nat,
                ),
            decreases width + 8 - self.n_bits,
        {
            let byte: u8 = self.data[self.pos];
            proof {
                let prefix = self.data@.take(self.pos as int);
                let longer = self.data@.take(self.pos + 1);
                assert(longer.drop_last() == prefix);
                assert(longer.last() == byte);
                lemma_load_byte(be_value(prefix), byte, self.n_bits as nat);
                lemma2_to64();
                lemma_pow2_monotone(self.n_bits as nat, 15);
                lemma_shift_in(self.buffer, byte as u32, 8);
            }
            self.buffer = (self.buffer << 8u32) | (byte as u32);
            self.n_bits = self.n_bits + 8;
            self.pos = self.pos + 1;
        }
        let rest: u8 = self.n_bits - width;
        proof {
            let whole = be_value(self.data@);
            let prefix = be_value(self.data@.take(self.pos as int));
            let tail_bits = (8 * (len - self.pos)) as nat;
            lemma_be_value_take(self.data@, self.pos as nat);
            lemma_pow2_sum(tail_bits, rest as nat);
            lemma_div_denominator(whole as int, pow2(tail_bits) as int, pow2(rest as nat) as int);
            assert(pow2(tail_bits) * pow2(rest as nat) == pow2(tail_bits + rest as nat));
            assert(tail_bits + rest as nat == 8 * len - start - width);
            lemma_middle_bits(prefix, rest as nat, width as nat);
            lemma_split_at(self.buffer, rest as u32);
            lemma_pow2_sum(rest as nat, width as nat);
            lemma_quotient_bound(self.buffer as nat, rest as nat, width as nat);
            lemma2_to64();
            lemma_pow2_monotone(width as nat, 16);
        }
        let bits: u16 = (self.buffer >> (rest as u32)) as u16;
        self.buffer = self.buffer & (!(0xFFFF_FFFFu32 << (rest as u32)));
        self.n_bits = rest;
        Some(bits)
    }
}

} // verus!
