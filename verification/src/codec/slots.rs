//! Match lengths and distances as slots with extra bits.

use crate::codec::bits::{
    bits_at, lemma_bits_at_concat, lemma_bits_value_concat, lemma_value_bits_len, value_bits,
};
use crate::codec::bitstream::{spec_read_bits, BitReader, BitWriter};
use crate::codec::error::CodecError;
use crate::codec::huffman::{
    code_bits, code_fits, decode_symbol, encode_symbol, lemma_decode_code, spec_decode_symbol,
    DecodeTable, EncodeTable,
};
use crate::codec::tables::{lemma_read_written, HUFF_LDC};
use vstd::arithmetic::div_mod::*;
use vstd::arithmetic::mul::*;
use vstd::arithmetic::power2::*;
use vstd::bits::*;
use vstd::prelude::*;
use vstd::std_specs::bits::*;

verus! {

/// Longest match a length slot can spell.
pub const MAX_MATCH: u32 = 0x1001;

/// Extra bits of a length slot.
pub open spec fn length_slot_bits(slot: int) -> nat {
    if slot < 8 {
        0
    } else {
        (slot / 4 - 1) as nat
    }
}

/// Shortest length of a length slot.
pub open spec fn length_slot_base(slot: int) -> nat {
    if slot < 8 {
        (2 + slot) as nat
    } else {
        (2 + (4 + slot % 4) * pow2(length_slot_bits(slot))) as nat
    }
}

/// Outcome of reading the length of `slot`.
pub open spec fn spec_read_length(slot: int, bits: Seq<bool>, pos: int) -> Result<
    (nat, int),
    CodecError,
> {
    match spec_read_bits(bits, pos, length_slot_bits(slot)) {
        Err(e) => if slot < 8 {
            Ok((length_slot_base(slot), pos))
        } else {
            Err(e)
        },
        Ok((extra, p)) => if slot < 8 {
            Ok((length_slot_base(slot), pos))
        } else {
            Ok((length_slot_base(slot) + extra, p))
        },
    }
}

/// Extra bits of a distance slot.
pub open spec fn distance_slot_bits(slot: int) -> nat {
    if slot < 4 {
        0
    } else {
        (slot / 2 - 1) as nat
    }
}

/// Shortest distance of a distance slot.
pub open spec fn distance_slot_base(slot: int) -> nat {
    if slot < 4 {
        (1 + slot) as nat
    } else {
        (1 + (2 + slot % 2) * pow2(distance_slot_bits(slot))) as nat
    }
}

/// Outcome of reading the distance of `slot`; its low four bits, where it has
/// four extra bits or more, are spelled by the code `ldc`.
pub open spec fn spec_read_distance(slot: int, ldc: Seq<u8>, bits: Seq<bool>, pos: int) -> Result<
    (nat, int),
    CodecError,
> {
    let n = distance_slot_bits(slot);
    let base = distance_slot_base(slot);
    if slot < 4 {
        Ok((base, pos))
    } else if n < 4 {
        match spec_read_bits(bits, pos, n) {
            Err(e) => Err(e),
            Ok((extra, p)) => Ok((base + extra, p)),
        }
    } else {
        match spec_read_bits(bits, pos, (n - 4) as nat) {
            Err(e) => Err(e),
            Ok((upper, p)) => match spec_decode_symbol(ldc, bits, p) {
                Err(e) => Err(e),
                Ok((low, q)) => Ok(((base + 16 * upper + low) as nat, q)),
            },
        }
    }
}

/// `2^k` of a length slot stays small.
proof fn lemma_length_slot(slot: int)
    requires
        0 <= slot <= 43,
    ensures
        length_slot_bits(slot) <= 9,
        length_slot_base(slot) + pow2(length_slot_bits(slot)) <= 4098,
        1 <= pow2(length_slot_bits(slot)) <= 512,
        2 <= length_slot_base(slot) <= 3586,
{
    lemma2_to64();
    let k = length_slot_bits(slot);
    lemma_pow2_pos(k);
    if k < 9 {
        lemma_pow2_strictly_increases(k, 9);
    }
    if slot >= 8 {
        assert((4 + slot % 4) * pow2(k) + pow2(k) <= 4096) by (nonlinear_arith)
            requires
                0 <= slot % 4 <= 3,
                pow2(k) <= 512,
        ;
        assert(0 <= (4 + slot % 4) * pow2(k) <= 3584) by (nonlinear_arith)
            requires
                0 <= slot % 4 <= 3,
                0 <= pow2(k) <= 512,
        ;
    }
}

/// `2^k` of a distance slot stays small.
proof fn lemma_distance_slot(slot: int)
    requires
        0 <= slot <= 79,
    ensures
        distance_slot_bits(slot) <= 38,
        pow2(distance_slot_bits(slot)) <= 0x40_0000_0000,
        1 <= distance_slot_base(slot) <= 0xC0_0000_0001,
{
    lemma2_to64();
    lemma2_to64_rest();
    let k = distance_slot_bits(slot);
    lemma_pow2_pos(k);
    if k < 38 {
        lemma_pow2_strictly_increases(k, 38);
    }
    if slot >= 4 {
        assert(0 <= (2 + slot % 2) * pow2(k) <= 0xC0_0000_0000) by (nonlinear_arith)
            requires
                0 <= slot % 2 <= 1,
                0 <= pow2(k) <= 0x40_0000_0000,
        ;
    }
}

/// Read the length of `slot`.
pub fn decode_length(slot: usize, reader: &mut BitReader<'_>) -> (r: Result<u32, CodecError>)
    requires
        slot <= 43,
        old(reader).wf(),
    ensures
        final(reader).wf(),
        final(reader).bytes() == old(reader).bytes(),
        match spec_read_length(slot as int, old(reader).bits(), old(reader).pos()) {
            Ok(v) => r == Ok::<u32, CodecError>(v.0 as u32) && 2 <= v.0 <= 4097 && final(reader).pos() == v.1 && v.1 >= old(reader).pos(),
            Err(e) => r == Err::<u32, CodecError>(e),
        },
{
    proof {
        lemma_length_slot(slot as int);
    }
    if slot < 8 {
        Ok(2 + slot as u32)
    } else {
        let lbits: u8 = (slot / 4 - 1) as u8;
        proof {
            assert((4 + slot % 4) as u64 * pow2(lbits as nat) <= 3584);
        }
        let base: u64 = 2 + crate::codec::bits::shl_u64((4 + slot % 4) as u64, lbits as u32);
        match reader.read_bits(lbits) {
            Ok(extra) => Ok(base as u32 + extra),
            Err(e) => Err(e),
        }
    }
}

/// Read the distance of `dist_slot`.
pub fn decode_distance(
    dist_slot: usize,
    reader: &mut BitReader<'_>,
    table_ldc: &DecodeTable,
) -> (r: Result<u64, CodecError>)
    requires
        dist_slot <= 79,
        table_ldc.wf(),
        table_ldc@.len() == HUFF_LDC,
        old(reader).wf(),
    ensures
        final(reader).wf(),
        final(reader).bytes() == old(reader).bytes(),
        match spec_read_distance(
            dist_slot as int,
            table_ldc@,
            old(reader).bits(),
            old(reader).pos(),
        ) {
            Ok(v) => r == Ok::<u64, CodecError>(v.0 as u64) && 1 <= v.0 <= 0x200_0000_0000
                && final(reader).pos() == v.1 && v.1 >= old(reader).pos(),
            Err(e) => r == Err::<u64, CodecError>(e),
        },
{
    proof {
        lemma_distance_slot(dist_slot as int);
    }
    if dist_slot < 4 {
        return Ok(1 + dist_slot as u64);
    }
    let dbits: u8 = (dist_slot / 2 - 1) as u8;
    proof {
        assert((2 + dist_slot % 2) as u64 * pow2(dbits as nat) <= 0xC0_0000_0000);
        lemma2_to64();
        lemma2_to64_rest();
    }
    let base: u64 = 1 + crate::codec::bits::shl_u64((2 + dist_slot % 2) as u64, dbits as u32);
    if dbits < 4 {
        match reader.read_bits(dbits) {
            Ok(extra) => Ok(base + extra as u64),
            Err(e) => Err(e),
        }
    } else {
        let upper: u64 = match read_wide(reader, dbits - 4) {
            Ok(v) => v,
            Err(e) => {
                return Err(e);
            },
        };
        proof {
            lemma_pow2_adds((dbits - 4) as nat, 4);
        }
        match decode_symbol(table_ldc, reader) {
            Ok(low) => Ok(base + 16 * upper + low as u64),
            Err(e) => Err(e),
        }
    }
}

/// Read up to 34 bits as one number.
fn read_wide(reader: &mut BitReader<'_>, n: u8) -> (r: Result<u64, CodecError>)
    requires
        n <= 34,
        old(reader).wf(),
    ensures
        final(reader).wf(),
        final(reader).bytes() == old(reader).bytes(),
        match spec_read_bits(old(reader).bits(), old(reader).pos(), n as nat) {
            Ok(v) => r == Ok::<u64, CodecError>(v.0 as u64) && v.0 < pow2(n as nat) && final(reader).pos() == v.1,
            Err(e) => r == Err::<u64, CodecError>(e),
        },
{
    let ghost bits = reader.bits();
    let ghost pos = reader.pos();
    if n <= 32 {
        match reader.read_bits(n) {
            Ok(v) => Ok(v as u64),
            Err(e) => Err(e),
        }
    } else {
        let k: u8 = n - 32;
        let hi: u32 = match reader.read_bits(k) {
            Ok(v) => v,
            Err(e) => {
                return Err(e);
            },
        };
        let lo: u32 = match reader.read_bits(32) {
            Ok(v) => v,
            Err(e) => {
                return Err(e);
            },
        };
        proof {
            let a = bits.subrange(pos, pos + k);
            let b = bits.subrange(pos + k, pos + n);
            assert(bits.subrange(pos, pos + n) =~= a + b);
            lemma_bits_value_concat(a, b);
            lemma2_to64();
            crate::codec::bits::lemma_bits_value_bound(a + b);
            assert(hi < 4) by {
                if k < 2 {
                    lemma_pow2_strictly_increases(k as nat, 2);
                }
            }
        }
        Ok(hi as u64 * 0x1_0000_0000 + lo as u64)
    }
}

/// The position of the highest set bit.
pub fn high_bit(v: u32) -> (k: u32)
    requires
        v > 0,
    ensures
        k < 32,
        pow2(k as nat) <= v < pow2((k + 1) as nat),
{
    let z: u32 = v.leading_zeros();
    proof {
        axiom_u32_leading_zeros(v);
        let k: u32 = (31 - z) as u32;
        lemma_u32_shr_is_div(v, k);
        let x = v >> k;
        assert(x & 1u32 != 0 ==> x != 0) by (bit_vector);
        lemma_pow2_pos(k as nat);
        if v < pow2(k as nat) {
            lemma_basic_div(v as int, pow2(k as nat) as int);
        }
        if z > 0 {
            let j: u32 = (32 - z) as u32;
            lemma_u32_shr_is_div(v, j);
            lemma_pow2_pos(j as nat);
            if v >= pow2(j as nat) {
                lemma_div_is_ordered(pow2(j as nat) as int, v as int, pow2(j as nat) as int);
                lemma_div_by_self(pow2(j as nat) as int);
            }
        } else {
            lemma2_to64();
        }
    }
    31 - z
}

/// `length` belongs to `slot`.
pub open spec fn in_length_slot(length: int, slot: int) -> bool {
    length_slot_base(slot) <= length < length_slot_base(slot) + pow2(length_slot_bits(slot))
}

/// The slot that a length from 2 to `MAX_MATCH` belongs to.
pub open spec fn length_slot(length: int) -> int {
    choose|s: int| 0 <= s <= 43 && in_length_slot(length, s)
}

/// The slots follow each other without gaps.
proof fn lemma_length_slots_adjoin(slot: int)
    requires
        0 <= slot < 43,
    ensures
        length_slot_base(slot) + pow2(length_slot_bits(slot)) == length_slot_base(slot + 1),
{
    lemma2_to64();
    let k = length_slot_bits(slot);
    if slot == 7 {
        assert((4 + 8int % 4) * pow2(1) == 8) by (nonlinear_arith)
            requires
                pow2(1) == 2,
        ;
    }
    if slot >= 8 {
        let next = length_slot_bits(slot + 1);
        if slot % 4 == 3 {
            assert(next == k + 1);
            lemma_pow2_unfold(next);
            assert((slot + 1) % 4 == 0);
            assert((4 + slot % 4) * pow2(k) + pow2(k) == (4 + (slot + 1) % 4) * pow2(next))
                by (nonlinear_arith)
                requires
                    slot % 4 == 3,
                    (slot + 1) % 4 == 0,
                    pow2(next) == 2 * pow2(k),
            ;
        } else {
            assert(next == k);
            assert((4 + slot % 4) * pow2(k) + pow2(k) == (4 + (slot + 1) % 4) * pow2(k))
                by (nonlinear_arith)
                requires
                    (slot + 1) % 4 == slot % 4 + 1,
            ;
        }
    }
}

proof fn lemma_length_slots_ordered(a: int, b: int)
    requires
        0 <= a < b <= 43,
    ensures
        length_slot_base(a) + pow2(length_slot_bits(a)) <= length_slot_base(b),
    decreases b,
{
    lemma_length_slots_adjoin(b - 1);
    if a < b - 1 {
        lemma_length_slots_ordered(a, b - 1);
        lemma_pow2_pos(length_slot_bits(b - 1));
    }
}

/// A length belongs to one slot only.
pub proof fn lemma_length_slot_unique(length: int, slot: int)
    requires
        0 <= slot <= 43,
        in_length_slot(length, slot),
    ensures
        length_slot(length) == slot,
{
    let s = length_slot(length);
    assert(0 <= s <= 43 && in_length_slot(length, s));
    if s < slot {
        lemma_length_slots_ordered(s, slot);
    } else if slot < s {
        lemma_length_slots_ordered(slot, s);
    }
}

proof fn lemma_length_slot_from(length: int, s: int)
    requires
        0 <= s <= 43,
        length_slot_base(s) <= length <= MAX_MATCH,
    ensures
        exists|t: int| 0 <= t <= 43 && in_length_slot(length, t),
    decreases 43 - s,
{
    if in_length_slot(length, s) {
    } else if s < 43 {
        lemma_length_slots_adjoin(s);
        lemma_length_slot_from(length, s + 1);
    } else {
        lemma2_to64();
        assert((4 + 43int % 4) * pow2(9) == 3584) by (nonlinear_arith)
            requires
                pow2(9) == 512,
        ;
    }
}

/// Every length from 2 to `MAX_MATCH` has a slot.
pub proof fn lemma_length_slot_exists(length: int)
    requires
        2 <= length <= MAX_MATCH,
    ensures
        0 <= length_slot(length) <= 43,
        in_length_slot(length, length_slot(length)),
{
    lemma_length_slot_from(length, 0);
}

/// The slot of a match length.
pub fn encode_length_slot(length: u32) -> (slot: usize)
    ensures
        slot <= 43,
        length < 2 ==> slot == 0,
        2 <= length <= MAX_MATCH ==> in_length_slot(length as int, slot as int) && slot
            == length_slot(length as int),
        length > MAX_MATCH ==> slot == 43,
{
    let slot = find_length_slot(length);
    proof {
        if 2 <= length <= MAX_MATCH {
            lemma_length_slot_unique(length as int, slot as int);
        }
    }
    slot
}

fn find_length_slot(length: u32) -> (slot: usize)
    ensures
        slot <= 43,
        length < 2 ==> slot == 0,
        2 <= length <= MAX_MATCH ==> in_length_slot(length as int, slot as int),
        length > MAX_MATCH ==> slot == 43,
{
    proof {
        lemma2_to64();
    }
    if length < 2 {
        return 0;
    }
    if length <= 9 {
        return (length - 2) as usize;
    }
    let val: u32 = length - 2;
    let high: u32 = high_bit(val);
    proof {
        if high < 3 {
            if high + 1 < 3 {
                lemma_pow2_strictly_increases((high + 1) as nat, 3);
            }
        }
    }
    let lbits: u32 = high - 2;
    let top: u64 = crate::codec::bits::shr_u64(val as u64, lbits);
    proof {
        let p = pow2(lbits as nat);
        lemma_pow2_pos(lbits as nat);
        lemma_pow2_adds(lbits as nat, 2);
        lemma_pow2_adds(lbits as nat, 3);
        lemma_fundamental_div_mod(val as int, p as int);
        lemma_mod_bound(val as int, p as int);
        assert(4 <= top < 8) by (nonlinear_arith)
            requires
                p > 0,
                4 * p <= val < 8 * p,
                val == p * top + val as int % p as int,
                0 <= (val as int) % (p as int) && (val as int) % (p as int) < p,
        ;
    }
    let sub: u32 = top as u32 - 4;
    let slot: u32 = 4 * (lbits + 1) + sub;
    proof {
        if length <= MAX_MATCH {
            if high >= 12 {
                if high > 12 {
                    lemma_pow2_strictly_increases(12, high as nat);
                }
                assert(false);
            }
            assert(slot / 4 - 1 == lbits);
            assert(slot % 4 == sub);
            assert((4 + sub) * pow2(lbits as nat) == pow2(lbits as nat) * top) by (nonlinear_arith)
                requires
                    top == 4 + sub,
            ;
        } else {
            if high < 12 {
                if high + 1 < 12 {
                    lemma_pow2_strictly_increases((high + 1) as nat, 12);
                }
                assert(false);
            }
        }
    }
    if slot < 43 {
        slot as usize
    } else {
        43
    }
}

/// Extra bits written after a length slot (0 for slots below 8).
pub fn length_extra_bits(slot: usize) -> (n: usize)
    requires
        slot <= 43,
    ensures
        n == length_slot_bits(slot as int),
        n <= 9,
{
    if slot < 8 {
        0
    } else {
        slot / 4 - 1
    }
}

/// The extra bits of a length.
pub open spec fn length_field(length: int, slot: int) -> Seq<bool> {
    if slot < 8 {
        Seq::empty()
    } else {
        value_bits((length - length_slot_base(slot)) as nat, length_slot_bits(slot))
    }
}

/// A length reads back from its slot and its extra bits.
pub proof fn lemma_length_field(length: int, slot: int, bits: Seq<bool>, pos: int)
    requires
        0 <= slot <= 43,
        in_length_slot(length, slot),
        bits_at(bits, pos, length_field(length, slot)),
    ensures
        length_field(length, slot).len() == length_slot_bits(slot) <= 9,
        spec_read_length(slot, bits, pos) == Ok::<(nat, int), CodecError>(
            (length as nat, pos + length_slot_bits(slot)),
        ),
{
    lemma_length_slot(slot);
    if slot >= 8 {
        lemma_read_written(
            bits,
            pos,
            (length - length_slot_base(slot)) as nat,
            length_slot_bits(slot),
        );
    } else {
        lemma2_to64();
    }
}

/// Write the extra bits of a length.
pub fn write_length_extra(writer: &mut BitWriter, length: u32, slot: usize)
    requires
        old(writer).wf(),
        slot <= 43,
        in_length_slot(length as int, slot as int),
        old(writer)@.len() + 9 < 0x1000_0000_0000_0000,
    ensures
        final(writer).wf(),
        final(writer)@ == old(writer)@ + length_field(length as int, slot as int),
        length_field(length as int, slot as int).len() <= 9,
{
    proof {
        lemma_length_slot(slot as int);
        lemma_value_bits_len(
            (length - length_slot_base(slot as int)) as nat,
            length_slot_bits(slot as int),
        );
    }
    if slot >= 8 {
        let lbits: u8 = (slot / 4 - 1) as u8;
        proof {
            assert((4 + slot % 4) as u64 * pow2(lbits as nat) <= 3584);
        }
        let base: u64 = 2 + crate::codec::bits::shl_u64((4 + slot % 4) as u64, lbits as u32);
        let extra: u32 = length - base as u32;
        writer.write_bits(extra, lbits);
    } else {
        assert(writer@ =~= writer@ + length_field(length as int, slot as int));
    }
}

/// `dist` belongs to `slot`.
pub open spec fn in_distance_slot(dist: int, slot: int) -> bool {
    distance_slot_base(slot) <= dist < distance_slot_base(slot) + pow2(distance_slot_bits(slot))
}

/// The slot that a distance from 1 to 2^32 - 1 belongs to.
pub open spec fn distance_slot(dist: int) -> int {
    choose|s: int| 0 <= s <= 63 && in_distance_slot(dist, s)
}

/// The value of a distance's extra bits.
pub open spec fn distance_extra(dist: int) -> nat {
    (dist - distance_slot_base(distance_slot(dist))) as nat
}

proof fn lemma_distance_slots_adjoin(slot: int)
    requires
        0 <= slot < 63,
    ensures
        distance_slot_base(slot) + pow2(distance_slot_bits(slot)) == distance_slot_base(slot + 1),
{
    lemma2_to64();
    let k = distance_slot_bits(slot);
    if slot == 3 {
        assert((2 + 4int % 2) * pow2(1) == 4) by (nonlinear_arith)
            requires
                pow2(1) == 2,
        ;
    }
    if slot >= 4 {
        let next = distance_slot_bits(slot + 1);
        if slot % 2 == 1 {
            assert(next == k + 1);
            lemma_pow2_unfold(next);
            assert((slot + 1) % 2 == 0);
            assert((2 + slot % 2) * pow2(k) + pow2(k) == (2 + (slot + 1) % 2) * pow2(next))
                by (nonlinear_arith)
                requires
                    slot % 2 == 1,
                    (slot + 1) % 2 == 0,
                    pow2(next) == 2 * pow2(k),
            ;
        } else {
            assert(next == k);
            assert((2 + slot % 2) * pow2(k) + pow2(k) == (2 + (slot + 1) % 2) * pow2(k))
                by (nonlinear_arith)
                requires
                    (slot + 1) % 2 == slot % 2 + 1,
            ;
        }
    }
}

proof fn lemma_distance_slots_ordered(a: int, b: int)
    requires
        0 <= a < b <= 63,
    ensures
        distance_slot_base(a) + pow2(distance_slot_bits(a)) <= distance_slot_base(b),
    decreases b,
{
    lemma_distance_slots_adjoin(b - 1);
    if a < b - 1 {
        lemma_distance_slots_ordered(a, b - 1);
        lemma_pow2_pos(distance_slot_bits(b - 1));
    }
}

/// A distance belongs to one slot only.
pub proof fn lemma_distance_slot_unique(dist: int, slot: int)
    requires
        0 <= slot <= 63,
        in_distance_slot(dist, slot),
    ensures
        distance_slot(dist) == slot,
{
    let s = distance_slot(dist);
    assert(0 <= s <= 63 && in_distance_slot(dist, s));
    if s < slot {
        lemma_distance_slots_ordered(s, slot);
    } else if slot < s {
        lemma_distance_slots_ordered(slot, s);
    }
}

proof fn lemma_distance_slot_from(dist: int, s: int)
    requires
        0 <= s <= 63,
        distance_slot_base(s) <= dist <= u32::MAX,
    ensures
        exists|t: int| 0 <= t <= 63 && in_distance_slot(dist, t),
    decreases 63 - s,
{
    if in_distance_slot(dist, s) {
    } else if s < 63 {
        lemma_distance_slots_adjoin(s);
        lemma_distance_slot_from(dist, s + 1);
    } else {
        lemma2_to64();
        assert((2 + 63int % 2) * pow2(30) == 3221225472) by (nonlinear_arith)
            requires
                pow2(30) == 1073741824,
        ;
    }
}

/// Every distance from 1 to 2^32 - 1 has a slot.
pub proof fn lemma_distance_slot_exists(dist: int)
    requires
        1 <= dist <= u32::MAX,
    ensures
        0 <= distance_slot(dist) <= 63,
        in_distance_slot(dist, distance_slot(dist)),
{
    lemma_distance_slot_from(dist, 0);
}

/// The longest length of a slot.
pub fn slot_last_length(slot: usize) -> (l: u32)
    requires
        slot <= 43,
    ensures
        l + 1 == length_slot_base(slot as int) + pow2(length_slot_bits(slot as int)),
        l <= MAX_MATCH,
{
    proof {
        lemma_length_slot(slot as int);
        lemma2_to64();
    }
    if slot < 8 {
        2 + slot as u32
    } else {
        let lbits: u32 = (slot / 4 - 1) as u32;
        proof {
            assert((5 + slot % 4) as u64 * pow2(lbits as nat) == (4 + slot % 4) as u64 * pow2(
                lbits as nat,
            ) + pow2(lbits as nat)) by (nonlinear_arith);
        }
        (1 + crate::codec::bits::shl_u64((5 + slot % 4) as u64, lbits)) as u32
    }
}

/// Map a match distance to its distance-code slot, the value of its extra
/// bits and their number.
///
/// RAR5 caps the table at 64 entries (`HUFF_DC`), RAR7 (v70) at 80
/// (`HUFF_DCX`), which covers distances up to 1 TiB. `dbits >= 4` slots
/// split their extra bits between a raw prefix and the low nibble encoded
/// through the LDC table.
pub fn encode_distance_slot(dist: u32) -> (r: (usize, u32, usize))
    requires
        dist > 0,
    ensures
        r.0 <= 63,
        r.2 == distance_slot_bits(r.0 as int),
        r.2 <= 30,
        r.1 < pow2(r.2 as nat),
        dist == distance_slot_base(r.0 as int) + r.1,
        r.0 == distance_slot(dist as int),
        r.1 == distance_extra(dist as int),
{
    let r = find_distance_slot(dist);
    proof {
        lemma_distance_slot_unique(dist as int, r.0 as int);
    }
    r
}

fn find_distance_slot(dist: u32) -> (r: (usize, u32, usize))
    requires
        dist > 0,
    ensures
        r.0 <= 63,
        r.2 == distance_slot_bits(r.0 as int),
        r.2 <= 30,
        r.1 < pow2(r.2 as nat),
        dist == distance_slot_base(r.0 as int) + r.1,
{
    proof {
        lemma2_to64();
    }
    if dist <= 4 {
        return ((dist - 1) as usize, 0, 0);
    }
    let val: u32 = dist - 1;
    let high: u32 = high_bit(val);
    proof {
        if high < 2 {
            if high + 1 < 2 {
                lemma_pow2_strictly_increases((high + 1) as nat, 2);
            }
        }
    }
    let dbits: u32 = high - 1;
    let top: u64 = crate::codec::bits::shr_u64(val as u64, dbits);
    let extra: u64 = crate::codec::bits::low_u64(val as u64, dbits);
    proof {
        let p = pow2(dbits as nat);
        lemma_pow2_pos(dbits as nat);
        lemma_pow2_adds(dbits as nat, 1);
        lemma_pow2_adds(dbits as nat, 2);
        lemma_fundamental_div_mod(val as int, p as int);
        lemma_mod_bound(val as int, p as int);
        assert(2 <= top < 4) by (nonlinear_arith)
            requires
                p > 0,
                2 * p <= val < 4 * p,
                val == p * top + val as int % p as int,
                0 <= (val as int) % (p as int) && (val as int) % (p as int) < p,
        ;
    }
    let sub: u32 = top as u32 - 2;
    let slot: u32 = 2 * (dbits + 1) + sub;
    proof {
        assert(slot / 2 - 1 == dbits);
        assert(slot % 2 == sub);
        assert((2 + sub) * pow2(dbits as nat) == pow2(dbits as nat) * top) by (nonlinear_arith)
            requires
                top == 2 + sub,
        ;
    }
    (slot as usize, extra as u32, dbits as usize)
}

/// The extra bits of a distance.
pub open spec fn distance_field(ldc: Seq<u8>, extra: nat, n: nat) -> Seq<bool> {
    if n < 4 {
        value_bits(extra, n)
    } else {
        value_bits(extra / 16, (n - 4) as nat) + code_bits(ldc, (extra % 16) as int)
    }
}

/// A distance reads back from its slot and its extra bits.
pub proof fn lemma_distance_field(
    ldc: Seq<u8>,
    slot: int,
    extra: nat,
    bits: Seq<bool>,
    pos: int,
)
    requires
        0 <= slot <= 63,
        code_fits(ldc),
        ldc.len() == HUFF_LDC,
        extra < pow2(distance_slot_bits(slot)),
        distance_slot_bits(slot) >= 4 ==> ldc[(extra % 16) as int] > 0,
        bits_at(bits, pos, distance_field(ldc, extra, distance_slot_bits(slot))),
    ensures
        spec_read_distance(slot, ldc, bits, pos) == Ok::<(nat, int), CodecError>(
            (
                distance_slot_base(slot) + extra,
                pos + distance_field(ldc, extra, distance_slot_bits(slot)).len(),
            ),
        ),
{
    let n = distance_slot_bits(slot);
    if slot < 4 {
        lemma2_to64();
        lemma_value_bits_len(extra, n);
    } else if n < 4 {
        lemma_read_written(bits, pos, extra, n);
    } else {
        let a = value_bits(extra / 16, (n - 4) as nat);
        let b = code_bits(ldc, (extra % 16) as int);
        lemma_bits_at_concat(bits, pos, a, b);
        lemma_pow2_adds((n - 4) as nat, 4);
        lemma2_to64();
        lemma_read_written(bits, pos, extra / 16, (n - 4) as nat);
        lemma_decode_code(ldc, (extra % 16) as int, bits, pos + n - 4);
    }
}

/// Write the extra bits of a distance.
pub fn write_distance_extra(writer: &mut BitWriter, enc_ldc: &EncodeTable, extra: u32, dbits: usize)
    requires
        old(writer).wf(),
        enc_ldc.wf(),
        enc_ldc@.len() == HUFF_LDC,
        dbits <= 30,
        old(writer)@.len() + 50 < 0x1000_0000_0000_0000,
    ensures
        final(writer).wf(),
        final(writer)@ == old(writer)@ + distance_field(enc_ldc@, extra as nat, dbits as nat),
        distance_field(enc_ldc@, extra as nat, dbits as nat).len() <= 45,
{
    let ghost w = writer@;
    proof {
        lemma_value_bits_len(extra as nat, dbits as nat);
        lemma_value_bits_len(extra as nat / 16, (dbits - 4) as nat);
    }
    if dbits >= 4 {
        writer.write_bits(extra / 16, (dbits - 4) as u8);
        encode_symbol(enc_ldc, writer, (extra % 16) as usize);
        assert(writer@ =~= w + distance_field(enc_ldc@, extra as nat, dbits as nat));
    } else {
        writer.write_bits(extra, dbits as u8);
    }
}

/// The length bonus added at decode time for a match at `distance`.
pub open spec fn spec_length_bonus(distance: int) -> nat {
    (if distance > 0x100 {
        1nat
    } else {
        0nat
    }) + (if distance > 0x2000 {
        1nat
    } else {
        0nat
    }) + (if distance > 0x40000 {
        1nat
    } else {
        0nat
    })
}

/// The length bonus added at decode time for a match at `distance`.
pub fn length_bonus(distance: u64) -> (b: u32)
    ensures
        b == spec_length_bonus(distance as int),
        b <= 3,
{
    let a: u32 = if distance > 0x100 { 1 } else { 0 };
    let b: u32 = if distance > 0x2000 { 1 } else { 0 };
    let c: u32 = if distance > 0x40000 { 1 } else { 0 };
    a + b + c
}

/// The length the decoder makes of a written length.
pub fn apply_length_bonus(length: u32, dist: u64) -> (l: u32)
    requires
        length <= u32::MAX - 3,
    ensures
        l == length + spec_length_bonus(dist as int),
{
    length + length_bonus(dist)
}

/// The length to write for a match, so that the decoder makes `length` of it.
pub fn remove_length_bonus(length: u32, dist: u64) -> (l: u32)
    requires
        length >= spec_length_bonus(dist as int),
    ensures
        l + spec_length_bonus(dist as int) == length,
{
    length - length_bonus(dist)
}

/// What one takes off the other puts back: the length written for a match is
/// the length decoded, and no other written length decodes to it.
pub proof fn lemma_length_bonus_inverse(length: int, dist: int, written: int)
    ensures
        written + spec_length_bonus(dist) == length <==> written == length - spec_length_bonus(dist),
{
}

} // verus!
