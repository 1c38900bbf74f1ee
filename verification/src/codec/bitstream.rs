//! Bit-granular reading and writing of byte strings.

use crate::codec::bits::{
    bits_of, byte_align, bits_value, lemma_bits_of_len, lemma_bits_of_push, lemma_bits_value_bound,
    lemma_bits_value_concat, lemma_byte_bits, lemma_value_of_bits, lemma_value_bits_len,
    lemma_value_bits_mod, lemma_value_bits_split, lemma_zero_bits_value, low_u64, shl_u64, shr_u64,
    value_bits, zero_bits,
};
use crate::codec::error::CodecError;
use vstd::arithmetic::div_mod::*;
use vstd::arithmetic::mul::*;
use vstd::arithmetic::power2::*;
use vstd::prelude::*;

verus! {

/// Appends bit fields to a growing byte string, most significant bit first.
pub struct BitWriter {
    bytes: Vec<u8>,
    partial: u64,
    partial_len: u32,
}

impl View for BitWriter {
    type V = Seq<bool>;

    /// The bits written so far.
    closed spec fn view(&self) -> Seq<bool> {
        bits_of(self.bytes@) + value_bits(self.partial as nat, self.partial_len as nat)
    }
}

impl BitWriter {
    pub closed spec fn wf(&self) -> bool {
        &&& self.partial_len < 8
        &&& self.partial < pow2(self.partial_len as nat)
        &&& self.bytes@.len() < 0x1000_0000_0000_0000
    }

    pub fn new() -> (w: BitWriter)
        ensures
            w.wf(),
            w@ == Seq::<bool>::empty(),
    {
        proof {
            lemma2_to64();
        }
        let w = BitWriter { bytes: Vec::new(), partial: 0, partial_len: 0 };
        assert(w@ =~= Seq::<bool>::empty());
        w
    }

    /// Append the low `n` bits of `value`.
    pub fn write_bits(&mut self, value: u32, n: u8)
        requires
            old(self).wf(),
            n <= 32,
            old(self)@.len() + n < 0x1000_0000_0000_0000,
        ensures
            final(self).wf(),
            final(self)@ == old(self)@ + value_bits(value as nat, n as nat),
    {
        let n32: u32 = n as u32;
        let low: u64 = low_u64(value as u64, n32);
        let ghost start = self@;
        let ghost k = self.partial_len as nat;
        let ghost v = value as nat;
        proof {
            lemma_pow2_pos(n as nat);
            lemma_pow2_adds(k, n as nat);
            lemma2_to64();
            lemma2_to64_rest();
            if k + n < 40 {
                lemma_pow2_strictly_increases((k + n) as nat, 40);
            }
            assert(self.partial * pow2(n as nat) + low < pow2(k) * pow2(n as nat)) by (nonlinear_arith)
                requires
                    self.partial + 1 <= pow2(k),
                    low < pow2(n as nat),
            ;
            assert(self.partial * pow2(n as nat) <= self.partial * pow2(n as nat) + low);
        }
        let mut acc: u64 = shl_u64(self.partial, n32) + low;
        let mut len: u32 = self.partial_len + n32;
        proof {
            lemma_fundamental_div_mod_converse(
                acc as int,
                pow2(n as nat) as int,
                self.partial as int,
                low as int,
            );
            lemma_value_bits_split(acc as nat, k, n as nat);
            lemma_value_bits_mod(acc as nat, n as nat);
            lemma_value_bits_mod(v, n as nat);
            lemma_bits_of_len(self.bytes@);
            lemma_value_bits_len(acc as nat, len as nat);
            lemma_value_bits_len(v, n as nat);
            lemma_value_bits_len(self.partial as nat, k);
            assert(bits_of(self.bytes@) + value_bits(acc as nat, len as nat) =~= start + value_bits(
                v,
                n as nat,
            ));
        }
        while len >= 8
            invariant
                len < 40,
                acc < pow2(len as nat),
                start.len() + n < 0x1000_0000_0000_0000,
                bits_of(self.bytes@) + value_bits(acc as nat, len as nat) == start + value_bits(
                    v,
                    n as nat,
                ),
            decreases len,
        {
            let rest: u32 = len - 8;
            let top: u64 = shr_u64(acc, rest);
            let ghost before = self.bytes@;
            proof {
                lemma_pow2_pos(rest as nat);
                lemma2_to64();
                lemma_pow2_adds(8, rest as nat);
                assert(top < 256) by {
                    lemma_multiply_divide_lt(acc as int, pow2(rest as nat) as int, 256);
                }
                lemma_value_bits_split(acc as nat, 8, rest as nat);
                lemma_value_bits_mod(acc as nat, rest as nat);
                lemma_bits_of_push(before, top as u8);
                lemma_bits_of_len(before);
                lemma_value_bits_len(acc as nat, len as nat);
                lemma_value_bits_len(v, n as nat);
                assert((bits_of(before) + value_bits(acc as nat, len as nat)).len() == (start
                    + value_bits(v, n as nat)).len());
                assert(8 * before.len() + len == start.len() + n);
            }
            self.bytes.push(top as u8);
            acc = low_u64(acc, rest);
            len = rest;
            proof {
                assert(bits_of(self.bytes@) + value_bits(acc as nat, len as nat) =~= start
                    + value_bits(v, n as nat));
            }
        }
        proof {
            lemma_bits_of_len(self.bytes@);
            lemma_value_bits_len(acc as nat, len as nat);
            lemma_value_bits_len(v, n as nat);
            assert((bits_of(self.bytes@) + value_bits(acc as nat, len as nat)).len() == (start
                + value_bits(v, n as nat)).len());
        }
        self.partial = acc;
        self.partial_len = len;
    }

    /// The number of bits written.
    pub fn bit_count(&self) -> (n: usize)
        requires
            self.wf(),
            self@.len() <= usize::MAX,
        ensures
            n == self@.len(),
    {
        proof {
            lemma_bits_of_len(self.bytes@);
            lemma_value_bits_len(self.partial as nat, self.partial_len as nat);
        }
        self.bytes.len() * 8 + self.partial_len as usize
    }

    /// The bytes written, the last one filled up with zero bits.
    pub fn into_bytes(self) -> (bytes: Vec<u8>)
        requires
            self.wf(),
        ensures
            bits_of(bytes@).len() == byte_align(self@.len() as int),
            bits_of(bytes@) == self@ + zero_bits((byte_align(self@.len() as int) - self@.len()) as nat),
            8 * bytes@.len() == byte_align(self@.len() as int),
    {
        let ghost bits = self@;
        proof {
            lemma_bits_of_len(self.bytes@);
            lemma_value_bits_len(self.partial as nat, self.partial_len as nat);
        }
        let mut bytes = self.bytes;
        if self.partial_len > 0 {
            let pad: u32 = 8 - self.partial_len;
            proof {
                lemma_pow2_pos(pad as nat);
                lemma_pow2_adds(self.partial_len as nat, pad as nat);
                lemma2_to64();
                assert(self.partial * pow2(pad as nat) < 256) by (nonlinear_arith)
                    requires
                        self.partial + 1 <= pow2(self.partial_len as nat),
                        pow2(self.partial_len as nat) * pow2(pad as nat) == 256,
                        pow2(pad as nat) > 0,
                ;
            }
            let last: u64 = shl_u64(self.partial, pad);
            proof {
                lemma_bits_of_push(bytes@, last as u8);
                lemma_value_bits_split(last as nat, self.partial_len as nat, pad as nat);
                lemma_div_multiples_vanish(self.partial as int, pow2(pad as nat) as int);
                lemma_mod_multiples_basic(self.partial as int, pow2(pad as nat) as int);
                lemma_mul_is_commutative(self.partial as int, pow2(pad as nat) as int);
                lemma_value_bits_mod(last as nat, pad as nat);
                lemma_zero_bits_value(pad as nat);
                assert(bits_of(bytes@.push(last as u8)) =~= bits + zero_bits(pad as nat));
            }
            bytes.push(last as u8);
            proof {
                lemma_bits_of_len(bytes@);
            }
        } else {
            assert(bits =~= bits_of(bytes@));
            assert(bits + zero_bits(0) =~= bits);
        }
        bytes
    }
}

/// Outcome of reading `n` bits at `pos`: their value and the next position.
pub open spec fn spec_read_bits(bits: Seq<bool>, pos: int, n: nat) -> Result<
    (nat, int),
    CodecError,
> {
    if pos + n > bits.len() {
        Err(CodecError::UnexpectedEnd)
    } else {
        Ok((bits_value(bits.subrange(pos, pos + n)), pos + n))
    }
}

/// The `n` bits at `pos`, zero bits standing in for what lies past the end.
pub open spec fn padded_bits(bits: Seq<bool>, pos: int, n: nat) -> Seq<bool> {
    Seq::new(n, |i: int| pos + i < bits.len() && bits[pos + i])
}

/// Outcome of reading `n` whole bytes at the first byte boundary at or after
/// `pos`: the bytes and the next position.
pub open spec fn spec_read_bytes(data: Seq<u8>, pos: int, n: nat) -> Result<
    (Seq<u8>, int),
    CodecError,
> {
    let at = byte_align(pos) / 8;
    if at < 0 || at + n > data.len() {
        Err(CodecError::UnexpectedEnd)
    } else {
        Ok((data.subrange(at, at + n), 8 * (at + n)))
    }
}

/// The part of one byte's bits from `o` to `o + k`, as a value.
proof fn lemma_byte_part(b: u8, o: nat, k: nat)
    requires
        o + k <= 8,
    ensures
        bits_value(value_bits(b as nat, 8).subrange(o as int, (o + k) as int)) == (b as nat / pow2(
            (8 - o - k) as nat,
        )) % pow2(k),
{
    let r = (8 - o - k) as nat;
    let x = b as nat / pow2(r);
    lemma_value_bits_split(b as nat, o + k, r);
    lemma_value_bits_split(x, o, k);
    lemma_value_bits_len(x, o + k);
    lemma_value_bits_len(x, k);
    lemma_value_bits_len(x / pow2(k), o);
    lemma_value_bits_len(b as nat, r);
    assert(value_bits(b as nat, 8).subrange(o as int, (o + k) as int) =~= value_bits(x, k));
    lemma_value_of_bits(x, k);
}

/// Three bytes, read as one 24-bit value.
proof fn lemma_three_bytes(b0: u8, b1: u8, b2: u8)
    ensures
        value_bits((b0 * 65536 + b1 * 256 + b2) as nat, 24) == value_bits(b0 as nat, 8)
            + value_bits(b1 as nat, 8) + value_bits(b2 as nat, 8),
{
    let v = (b0 * 65536 + b1 * 256 + b2) as nat;
    lemma2_to64();
    lemma_value_bits_split(v, 16, 8);
    lemma_value_bits_split(v / 256, 8, 8);
    assert(v / 256 == b0 * 256 + b1);
    assert(v / 256 / 256 == b0);
    assert(v % 256 == b2);
    assert((v / 256) % 256 == b1);
    lemma_value_bits_mod(v, 8);
    lemma_value_bits_mod(v / 256, 8);
}

/// Reads bit fields from a byte string, most significant bit first.
pub struct BitReader<'a> {
    data: &'a [u8],
    byte_pos: u64,
    bit_pos: u8,
}

impl<'a> BitReader<'a> {
    pub closed spec fn wf(&self) -> bool {
        &&& self.data@.len() < 0x1000_0000_0000_0000
        &&& self.byte_pos < 0x2000_0000_0000_0000
        &&& self.bit_pos < 8
    }

    /// The bytes being read.
    pub closed spec fn bytes(&self) -> Seq<u8> {
        self.data@
    }

    /// The bits being read.
    pub open spec fn bits(&self) -> Seq<bool> {
        bits_of(self.bytes())
    }

    /// The position of the next bit.
    pub closed spec fn pos(&self) -> int {
        8 * self.byte_pos + self.bit_pos
    }

    /// What is read fits memory, and positions are not negative.
    pub proof fn lemma_bounds(&self)
        requires
            self.wf(),
        ensures
            self.bytes().len() < 0x1000_0000_0000_0000,
            self.pos() >= 0,
    {
    }

    /// Start reading at the first bit of `data`.
    pub fn new(data: &'a [u8]) -> (r: BitReader<'a>)
        requires
            data@.len() < 0x1000_0000_0000_0000,
        ensures
            r.wf(),
            r.bytes() == data@,
            r.pos() == 0,
    {
        BitReader { data, byte_pos: 0, bit_pos: 0 }
    }

    /// The byte that holds the next bit.
    pub fn byte_position(&self) -> (p: u64)
        requires
            self.wf(),
        ensures
            p == self.pos() / 8,
            0 <= self.pos() < 0x1_0000_0000_0000_0000,
            p < 0x2000_0000_0000_0000,
    {
        self.byte_pos
    }

    /// The offset of the next bit within its byte.
    pub fn bit_position(&self) -> (p: u8)
        requires
            self.wf(),
        ensures
            p == self.pos() % 8,
            p < 8,
    {
        self.bit_pos
    }

    /// Continue reading at bit `bit` of byte `byte`.
    pub fn set_position(&mut self, byte: u64, bit: u8)
        requires
            old(self).wf(),
            byte < 0x2000_0000_0000_0000,
            bit < 8,
        ensures
            final(self).wf(),
            final(self).bytes() == old(self).bytes(),
            final(self).pos() == 8 * byte + bit,
    {
        self.byte_pos = byte;
        self.bit_pos = bit;
    }

    /// Read the next `n` bits as a number.
    pub fn read_bits(&mut self, n: u8) -> (r: Result<u32, CodecError>)
        requires
            old(self).wf(),
            n <= 32,
        ensures
            final(self).wf(),
            final(self).bytes() == old(self).bytes(),
            match spec_read_bits(old(self).bits(), old(self).pos(), n as nat) {
                Ok(v) => r == Ok::<u32, CodecError>(v.0 as u32) && v.0 <= u32::MAX
                    && final(self).pos() == v.1,
                Err(e) => r == Err::<u32, CodecError>(e) && final(self).pos() == old(self).pos(),
            },
            r is Ok ==> r->Ok_0 < pow2(n as nat),
            old(self).pos() >= 0,
    {
        let ghost bits = self.bits();
        let ghost start = self.pos();
        proof {
            lemma_bits_of_len(self.bytes());
        }
        let here: u64 = self.byte_pos * 8 + self.bit_pos as u64;
        let total: u64 = self.data.len() as u64 * 8;
        if n as u64 > total || here > total - n as u64 {
            return Err(CodecError::UnexpectedEnd);
        }
        let mut left: u32 = n as u32;
        let mut acc: u64 = 0;
        proof {
            lemma2_to64();
            assert(bits.subrange(start, start) =~= Seq::<bool>::empty());
        }
        while left > 0
            invariant
                self.wf(),
                self.bytes() == old(self).bytes(),
                bits == self.bits(),
                bits.len() == 8 * self.data@.len(),
                left <= n <= 32,
                self.pos() == start + n - left,
                start >= 0,
                start + n <= bits.len(),
                acc == bits_value(bits.subrange(start, self.pos())),
            decreases left,
        {
            let room: u32 = 8 - self.bit_pos as u32;
            let k: u32 = if room < left { room } else { left };
            let ghost here = self.pos();
            let ghost o = self.bit_pos as nat;
            let b: u8 = self.data[self.byte_pos as usize];
            let part: u64 = low_u64(shr_u64(b as u64, room - k), k);
            proof {
                lemma_byte_part(b, o, k as nat);
                lemma_byte_bits(self.data@, self.byte_pos as int);
                let whole = bits.subrange(8 * self.byte_pos as int, 8 * self.byte_pos + 8);
                assert(bits.subrange(here, here + k) =~= whole.subrange(o as int, (o + k) as int));
                assert(bits.subrange(start, here + k) =~= bits.subrange(start, here)
                    + bits.subrange(here, here + k));
                lemma_bits_value_concat(bits.subrange(start, here), bits.subrange(here, here + k));
                lemma_bits_value_bound(bits.subrange(start, here));
                lemma2_to64();
                if here - start < 32 {
                    lemma_pow2_strictly_increases((here - start) as nat, 32);
                }
                if k < 8 {
                    lemma_pow2_strictly_increases(k as nat, 8);
                }
                lemma_pow2_pos(k as nat);
                assert(acc * pow2(k as nat) <= 0x1_0000_0000 * 256) by (nonlinear_arith)
                    requires
                        acc <= 0x1_0000_0000,
                        0 < pow2(k as nat) <= 256,
                ;
            }
            acc = shl_u64(acc, k) + part;
            left = left - k;
            if k == room {
                self.byte_pos = self.byte_pos + 1;
                self.bit_pos = 0;
            } else {
                self.bit_pos = self.bit_pos + k as u8;
            }
            assert(self.pos() == here + k);
        }
        proof {
            lemma_bits_value_bound(bits.subrange(start, start + n));
            lemma2_to64();
            if n < 32 {
                lemma_pow2_strictly_increases(n as nat, 32);
            }
        }
        Ok(acc as u32)
    }

    /// The value of the next 15 bits, without consuming them.
    pub fn peek15(&self) -> (v: u32)
        requires
            self.wf(),
        ensures
            v == bits_value(padded_bits(self.bits(), self.pos(), 15)),
            v < 0x8000,
    {
        let n: u64 = self.data.len() as u64;
        let b0: u8 = if self.byte_pos < n {
            self.data[self.byte_pos as usize]
        } else {
            0
        };
        let b1: u8 = if self.byte_pos + 1 < n {
            self.data[self.byte_pos as usize + 1]
        } else {
            0
        };
        let b2: u8 = if self.byte_pos + 2 < n {
            self.data[self.byte_pos as usize + 2]
        } else {
            0
        };
        let v: u64 = b0 as u64 * 65536 + b1 as u64 * 256 + b2 as u64;
        let drop: u32 = 9 - self.bit_pos as u32;
        let r: u64 = low_u64(shr_u64(v, drop), 15);
        proof {
            let bits = self.bits();
            lemma_bits_of_len(self.data@);
            let o = self.bit_pos as nat;
            lemma_three_bytes(b0, b1, b2);
            lemma_zero_bits_value(8);
            let at = self.byte_pos as int;
            if at < n {
                lemma_byte_bits(self.data@, at);
            }
            if at + 1 < n {
                lemma_byte_bits(self.data@, at + 1);
            }
            if at + 2 < n {
                lemma_byte_bits(self.data@, at + 2);
            }
            let x = v as nat / pow2(drop as nat);
            lemma_value_bits_split(v as nat, o + 15, drop as nat);
            lemma_value_bits_split(x, o, 15);
            lemma_value_bits_len(x, 15);
            lemma_value_bits_len(x / pow2(15), o);
            lemma_value_bits_len(v as nat, 24);
            lemma_value_bits_len(v as nat, drop as nat);
            lemma_value_bits_len(b0 as nat, 8);
            lemma_value_bits_len(b1 as nat, 8);
            lemma_value_bits_len(b2 as nat, 8);
            lemma_value_of_bits(x, 15);
            let w = padded_bits(bits, self.pos(), 15);
            let three = value_bits(b0 as nat, 8) + value_bits(b1 as nat, 8) + value_bits(
                b2 as nat,
                8,
            );
            assert(three =~= value_bits(x / pow2(15), o) + value_bits(x, 15) + value_bits(
                v as nat,
                drop as nat,
            ));
            assert forall|i: int| 0 <= i < 15 implies w[i] == value_bits(x, 15)[i] by {
                let j = o + i;
                assert(value_bits(x, 15)[i] == three[j]);
                let p = 8 * at + j;
                if j < 8 {
                    if at < n {
                        assert(bits.subrange(8 * at, 8 * at + 8)[j] == bits[p]);
                    } else {
                        assert(zero_bits(8)[j] == false);
                    }
                } else if j < 16 {
                    if at + 1 < n {
                        assert(bits.subrange(8 * (at + 1), 8 * (at + 1) + 8)[j - 8] == bits[p]);
                    } else {
                        assert(zero_bits(8)[j - 8] == false);
                    }
                } else {
                    if at + 2 < n {
                        assert(bits.subrange(8 * (at + 2), 8 * (at + 2) + 8)[j - 16] == bits[p]);
                    } else {
                        assert(zero_bits(8)[j - 16] == false);
                    }
                }
            }
            assert(w =~= value_bits(x, 15));
            lemma2_to64();
        }
        r as u32
    }

    /// Step over `n` bits that are known to be there.
    pub fn skip(&mut self, n: u8)
        requires
            old(self).wf(),
            n <= 15,
            old(self).pos() + n <= old(self).bits().len(),
        ensures
            final(self).wf(),
            final(self).bytes() == old(self).bytes(),
            final(self).pos() == old(self).pos() + n,
    {
        proof {
            lemma_bits_of_len(self.bytes());
        }
        let sum: u8 = self.bit_pos + n;
        self.byte_pos = self.byte_pos + (sum / 8) as u64;
        self.bit_pos = sum % 8;
    }

    /// How many bits are left, counted no further than 15.
    pub fn has_bits(&self, n: u8) -> (b: bool)
        requires
            self.wf(),
            n <= 15,
        ensures
            b == (self.pos() + n <= self.bits().len()),
    {
        proof {
            lemma_bits_of_len(self.bytes());
        }
        let here: u64 = self.byte_pos * 8 + self.bit_pos as u64;
        let total: u64 = self.data.len() as u64 * 8;
        here <= total && n as u64 <= total - here
    }

    /// Read `n` whole bytes, starting at the next byte boundary.
    pub fn read_bytes(&mut self, n: usize) -> (r: Result<Vec<u8>, CodecError>)
        requires
            old(self).wf(),
        ensures
            final(self).wf(),
            final(self).bytes() == old(self).bytes(),
            match spec_read_bytes(old(self).bytes(), old(self).pos(), n as nat) {
                Ok(v) => r is Ok && r->Ok_0@ == v.0 && final(self).pos() == v.1,
                Err(e) => r == Err::<Vec<u8>, CodecError>(e),
            },
    {
        let at: u64 = if self.bit_pos == 0 {
            self.byte_pos
        } else {
            self.byte_pos + 1
        };
        assert(byte_align(self.pos()) == 8 * at);
        if n > self.data.len() || at > (self.data.len() - n) as u64 {
            return Err(CodecError::UnexpectedEnd);
        }
        let from: usize = at as usize;
        let part = vstd::slice::slice_subrange(self.data, from, from + n);
        let out = vstd::slice::slice_to_vec(part);
        self.byte_pos = at + n as u64;
        self.bit_pos = 0;
        Ok(out)
    }

    /// Read one whole byte, starting at the next byte boundary.
    pub fn read_byte(&mut self) -> (r: Result<u8, CodecError>)
        requires
            old(self).wf(),
        ensures
            final(self).wf(),
            final(self).bytes() == old(self).bytes(),
            match spec_read_bytes(old(self).bytes(), old(self).pos(), 1) {
                Ok(v) => r == Ok::<u8, CodecError>(v.0[0]) && final(self).pos() == v.1,
                Err(e) => r == Err::<u8, CodecError>(e),
            },
    {
        let at: u64 = if self.bit_pos == 0 {
            self.byte_pos
        } else {
            self.byte_pos + 1
        };
        assert(byte_align(self.pos()) == 8 * at);
        if at >= self.data.len() as u64 {
            return Err(CodecError::UnexpectedEnd);
        }
        let b: u8 = self.data[at as usize];
        self.byte_pos = at + 1;
        self.bit_pos = 0;
        Ok(b)
    }
}

} // verus!
