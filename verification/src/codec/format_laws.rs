//! What the compressed format lays down, as facts about what is read.

use crate::codec::bits::{
    bits_of, bits_value, byte_align, lemma_bits_of_len, lemma_value_bits_len, value_bits,
};
use crate::codec::decode::{le_number, spec_read_header, xor_all};
use crate::codec::error::CodecError;
use crate::codec::filters::{
    arm_mapped, delta_byte, delta_src, filter_decoded, le24, le24_bytes, le32, le32_bytes,
    lemma_arm_len, lemma_x86_len, x86_mapped, x86_stretch, x86_stretches,
};
use crate::codec::huffman::{code_start, spec_decode_symbol, stands_before, words_before};
use crate::codec::lz::{apply_symbol, Lz};
use crate::codec::slots::{
    distance_slot_base, distance_slot_bits, length_slot_base, length_slot_bits, spec_read_distance,
    spec_read_length,
};
use crate::codec::symbols::{read_filter, spec_read_symbol, Symbol};
use crate::codec::tables::{read_lengths, read_nibbles, spec_read_tables, CodeLengths};
use crate::codec::window::copied;
use vstd::arithmetic::div_mod::*;
use vstd::arithmetic::mul::*;
use vstd::arithmetic::power2::*;
use vstd::prelude::*;

verus! {

// ── Bits ───────────────────────────────────────────────────────────────────

proof fn lemma_value_bit(v: nat, n: nat, j: int)
    requires
        0 <= j < n,
    ensures
        value_bits(v, n)[j] == (v as int / pow2((n - 1 - j) as nat) as int % 2 == 1),
    decreases n,
{
    lemma_value_bits_len(v / 2, (n - 1) as nat);
    lemma2_to64();
    if j < n - 1 {
        lemma_value_bit(v / 2, (n - 1) as nat, j);
        let k = (n - 2 - j) as nat;
        lemma_pow2_unfold(k + 1);
        lemma_pow2_pos(k);
        lemma_div_denominator(v as int, 2, pow2(k) as int);
        assert((n - 1 - j) as nat == k + 1);
        assert((v / 2) as int / pow2(k) as int == v as int / pow2(k + 1) as int);
        assert(value_bits(v, n)[j] == value_bits(v / 2, (n - 1) as nat)[j]);
    } else {
        assert(pow2(0) == 1);
        assert(v as int / 1 == v);
        assert(value_bits(v, n)[j] == (v % 2 == 1));
    }
}

/// The bits of a byte string go from the highest bit of each byte to the
/// lowest.
pub proof fn lemma_highest_bit_first(data: Seq<u8>, i: int, j: int)
    requires
        0 <= i < data.len(),
        0 <= j < 8,
    ensures
        bits_of(data).len() == 8 * data.len(),
        bits_of(data)[8 * i + j] == (data[i] as int / pow2((7 - j) as nat) as int % 2 == 1),
    decreases data.len(),
{
    lemma_bits_of_len(data);
    lemma_bits_of_len(data.drop_last());
    lemma_value_bits_len(data.last() as nat, 8);
    if i < data.len() - 1 {
        lemma_highest_bit_first(data.drop_last(), i, j);
    } else {
        lemma_value_bit(data.last() as nat, 8, j);
    }
}

/// A number is read from its highest bit to its lowest.
pub proof fn lemma_number_highest_first(b: Seq<bool>)
    requires
        b.len() > 0,
    ensures
        bits_value(b) == (if b[0] {
            pow2((b.len() - 1) as nat)
        } else {
            0
        }) + bits_value(b.skip(1)),
    decreases b.len(),
{
    lemma2_to64();
    if b.len() == 1 {
        assert(b.skip(1) =~= Seq::<bool>::empty());
        assert(b.drop_last() =~= Seq::<bool>::empty());
        assert(bits_value(b.drop_last()) == 0);
    } else {
        lemma_number_highest_first(b.drop_last());
        assert(b.drop_last().skip(1) =~= b.skip(1).drop_last());
        lemma_pow2_unfold((b.len() - 1) as nat);
    }
}

// ── Block headers ──────────────────────────────────────────────────────────

/// A block header is read from the bytes where it stands: the top bit of the
/// first says that tables follow, the next that no block does; three bits count
/// the bits of the last byte, two the bytes of the size, and the second byte
/// makes all of them and 0x5A come out as zero.
pub proof fn lemma_header_law(data: Seq<u8>, pos: int)
    requires
        0 <= pos,
        byte_align(pos) / 8 + 3 <= data.len(),
        byte_align(pos) / 8 + 3 + data[byte_align(pos) / 8] as int / 8 % 4 <= data.len(),
    ensures
        ({
            let at = byte_align(pos) / 8;
            let f = data[at] as int;
            let k = f / 8 % 4 + 1;
            let b2 = data[at + 2];
            let b3 = if k >= 2 { data[at + 3] } else { 0 };
            let b4 = if k >= 3 { data[at + 4] } else { 0 };
            let b5 = if k >= 4 { data[at + 5] } else { 0 };
            let size = b2 + 256 * b3 + 65536 * b4 + 16777216 * b5;
            let sum = 0x5Au8 ^ data[at] ^ b2 ^ b3 ^ b4 ^ b5;
            match spec_read_header(data, pos) {
                Ok(h) => {
                    &&& data[at + 1] == sum
                    &&& size > 0
                    &&& h.table == (f >= 128)
                    &&& h.last == (f % 128 >= 64)
                    &&& h.start == 8 * (at + 2 + k)
                    &&& h.len == 8 * size - 7 + f % 8
                },
                Err(e) => data[at + 1] != sum || size == 0,
            }
        }),
{
    reveal(spec_read_header);
    let at = byte_align(pos) / 8;
    let f = data[at];
    let k = f as int / 8 % 4 + 1;
    let s = data.subrange(at + 2, at + 2 + k);
    assert(byte_align(8 * (at + 1)) / 8 == at + 1);
    assert(byte_align(8 * (at + 2)) / 8 == at + 2);
    assert(data.subrange(at, at + 1)[0] == f);
    assert(data.subrange(at + 1, at + 2)[0] == data[at + 1]);
    let seed = 0x5Au8 ^ f;
    reveal_with_fuel(xor_all, 5);
    reveal_with_fuel(le_number, 5);
    let b3 = if k >= 2 { data[at + 3] } else { 0 };
    let b4 = if k >= 3 { data[at + 4] } else { 0 };
    let b5 = if k >= 4 { data[at + 5] } else { 0 };
    assert(forall|x: u8| #[trigger] (x ^ 0u8) == x) by (bit_vector);
    assert(le_number(s) == s[0] + 256 * le_number(s.subrange(1, k)));
    if k >= 2 {
        assert(s.subrange(1, k).subrange(1, k - 1) =~= s.subrange(2, k));
        assert(le_number(s.subrange(1, k)) == s[1] + 256 * le_number(s.subrange(2, k)));
    } else {
        assert(s.subrange(1, k) =~= Seq::<u8>::empty());
    }
    if k >= 3 {
        assert(s.subrange(2, k).subrange(1, k - 2) =~= s.subrange(3, k));
        assert(le_number(s.subrange(2, k)) == s[2] + 256 * le_number(s.subrange(3, k)));
    } else if k == 2 {
        assert(s.subrange(2, k) =~= Seq::<u8>::empty());
    }
    if k >= 4 {
        assert(s.subrange(3, k).subrange(1, k - 3) =~= Seq::<u8>::empty());
    } else if k == 3 {
        assert(s.subrange(3, k) =~= Seq::<u8>::empty());
    }
    assert(xor_all(seed, s) == seed ^ s[0] ^ b3 ^ b4 ^ b5) by {
        assert(s.subrange(0, 0) =~= Seq::<u8>::empty());
        assert(s.subrange(0, 1).drop_last() =~= s.subrange(0, 0));
        assert(xor_all(seed, s.subrange(0, 0)) == seed);
        assert(xor_all(seed, s.subrange(0, 1)) == seed ^ s[0]);
        if k >= 2 {
            assert(s.subrange(0, 2).drop_last() =~= s.subrange(0, 1));
            assert(xor_all(seed, s.subrange(0, 2)) == seed ^ s[0] ^ b3);
        }
        if k >= 3 {
            assert(s.subrange(0, 3).drop_last() =~= s.subrange(0, 2));
            assert(xor_all(seed, s.subrange(0, 3)) == seed ^ s[0] ^ b3 ^ b4);
        }
        if k >= 4 {
            assert(s.subrange(0, 4).drop_last() =~= s.subrange(0, 3));
            assert(xor_all(seed, s.subrange(0, 4)) == seed ^ s[0] ^ b3 ^ b4 ^ b5);
        }
        assert(s.subrange(0, k) =~= s);
    }
    assert(0x5Au8 ^ f ^ s[0] ^ b3 ^ b4 ^ b5 == seed ^ s[0] ^ b3 ^ b4 ^ b5);
}

// ── Codes ──────────────────────────────────────────────────────────────────

proof fn lemma_words_order(lengths: Seq<u8>, a: int, b: int, k: nat)
    requires
        0 <= a < lengths.len(),
        0 <= b < lengths.len(),
        k <= lengths.len(),
        0 < lengths[a],
        lengths[a] < lengths[b] || lengths[a] == lengths[b] && a < b,
    ensures
        words_before(lengths, lengths[a] as int, a, k) + (if a < k {
            pow2((15 - lengths[a]) as nat)
        } else {
            0
        }) <= words_before(lengths, lengths[b] as int, b, k),
    decreases k,
{
    if k > 0 {
        lemma_words_order(lengths, a, b, (k - 1) as nat);
    }
}

/// Codes are given out in order: shorter ones first, and of equal length those
/// of smaller symbols first.
pub proof fn lemma_codes_in_order(lengths: Seq<u8>, a: int, b: int)
    requires
        0 <= a < lengths.len(),
        0 <= b < lengths.len(),
        0 < lengths[a],
        lengths[a] < lengths[b] || lengths[a] == lengths[b] && a < b,
    ensures
        code_start(lengths, a) + pow2((15 - lengths[a]) as nat) <= code_start(lengths, b),
{
    lemma_words_order(lengths, a, b, lengths.len());
}

proof fn lemma_words_none(lengths: Seq<u8>, a: int, k: nat)
    requires
        0 <= a < lengths.len(),
        k <= lengths.len(),
        forall|t: int|
            0 <= t < lengths.len() && t != a && 0 < #[trigger] lengths[t] ==> lengths[a]
                < lengths[t] || lengths[a] == lengths[t] && a < t,
    ensures
        words_before(lengths, lengths[a] as int, a, k) == 0,
    decreases k,
{
    if k > 0 {
        lemma_words_none(lengths, a, (k - 1) as nat);
        assert(!stands_before(lengths, k - 1, lengths[a] as int, a));
    }
}

/// The first code is all zeros.
pub proof fn lemma_first_code_zero(lengths: Seq<u8>, a: int)
    requires
        0 <= a < lengths.len(),
        forall|t: int|
            0 <= t < lengths.len() && t != a && 0 < #[trigger] lengths[t] ==> lengths[a]
                < lengths[t] || lengths[a] == lengths[t] && a < t,
    ensures
        code_start(lengths, a) == 0,
{
    lemma_words_none(lengths, a, lengths.len());
}

/// Tables spell the lengths of the codes of 306 main symbols, 64 or 80
/// distances, 16 low distance bits and 44 lengths, in this order.
pub proof fn lemma_tables_law(bits: Seq<bool>, pos: int, extra_dist: bool)
    requires
        spec_read_tables(bits, pos, extra_dist) is Ok,
    ensures
        ({
            let t = spec_read_tables(bits, pos, extra_dist)->Ok_0.0;
            let bc = read_nibbles(bits, pos, Seq::empty())->Ok_0;
            let d = if extra_dist {
                80int
            } else {
                64
            };
            let all = read_lengths(bc.0, bits, bc.1, Seq::empty(), 366 + d)->Ok_0.0;
            &&& read_nibbles(bits, pos, Seq::empty()) is Ok
            &&& read_lengths(bc.0, bits, bc.1, Seq::empty(), 366 + d) is Ok
            &&& t.nc == all.subrange(0, 306)
            &&& t.dc == all.subrange(306, 306 + d)
            &&& t.ldc == all.subrange(306 + d, 322 + d)
            &&& t.rc == all.subrange(322 + d, 366 + d)
        }),
{
    reveal(spec_read_tables);
}

/// One step of reading the lengths that spell the others: a nibble is a length;
/// fifteen and a zero nibble are the length fifteen; fifteen and another nibble
/// are two zeros more than it says.
pub proof fn lemma_nibble_law(bits: Seq<bool>, pos: int, acc: Seq<u8>)
    requires
        0 <= pos,
        pos + 8 <= bits.len(),
        acc.len() < 20,
    ensures
        ({
            let v = bits_value(bits.subrange(pos, pos + 4));
            let c = bits_value(bits.subrange(pos + 4, pos + 8)) as int;
            let zeros = if c + 2 < 20 - acc.len() {
                c + 2
            } else {
                20 - acc.len()
            };
            read_nibbles(bits, pos, acc) == if v < 15 {
                read_nibbles(bits, pos + 4, acc.push(v as u8))
            } else if c == 0 {
                read_nibbles(bits, pos + 8, acc.push(15))
            } else {
                read_nibbles(bits, pos + 8, acc + Seq::new(zeros as nat, |i: int| 0u8))
            }
        }),
{
    let v = bits_value(bits.subrange(pos, pos + 4));
    crate::codec::bits::lemma_bits_value_bound(bits.subrange(pos, pos + 4));
    lemma2_to64();
    assert(pow2(4) == 16);
    let c = bits_value(bits.subrange(pos + 4, pos + 8)) as int;
    let zeros = if c + 2 < 20 - acc.len() {
        c + 2
    } else {
        20 - acc.len()
    };
    assert(crate::codec::tables::zero_lengths(zeros as nat) =~= Seq::new(
        zeros as nat,
        |i: int| 0u8,
    ));
}

/// One step of reading lengths: a symbol below 16 is a length; 16 and 17 repeat
/// the last one, 18 and 19 stand for zeros, 3 and more by three bits, or 11 and
/// more by seven.
pub proof fn lemma_length_law(
    bc: Seq<u8>,
    bits: Seq<bool>,
    pos: int,
    acc: Seq<u8>,
    count: int,
    sym: int,
    p: int,
)
    requires
        acc.len() < count,
        spec_decode_symbol(bc, bits, pos) == Ok::<(int, int), CodecError>((sym, p)),
        0 <= sym < 20,
        sym >= 16 ==> p + 7 <= bits.len(),
    ensures
        ({
            let few = 3 + bits_value(bits.subrange(p, p + 3)) as int;
            let many = 11 + bits_value(bits.subrange(p, p + 7)) as int;
            let left = count - acc.len();
            let n = if sym == 16 || sym == 18 {
                few
            } else {
                many
            };
            let q = if sym == 16 || sym == 18 {
                p + 3
            } else {
                p + 7
            };
            let v = if sym < 18 {
                acc.last()
            } else {
                0u8
            };
            read_lengths(bc, bits, pos, acc, count) == if sym < 16 {
                read_lengths(bc, bits, p, acc.push(sym as u8), count)
            } else if sym < 18 && acc.len() == 0 {
                Err(CodecError::RepeatWithoutLength)
            } else {
                read_lengths(
                    bc,
                    bits,
                    q,
                    acc + Seq::new(
                        (if n < left {
                            n
                        } else {
                            left
                        }) as nat,
                        |i: int| v,
                    ),
                    count,
                )
            }
        }),
{
    let few = 3 + bits_value(bits.subrange(p, p + 3)) as int;
    let many = 11 + bits_value(bits.subrange(p, p + 7)) as int;
    let left = count - acc.len();
    let n = if sym == 16 || sym == 18 {
        few
    } else {
        many
    };
    let v = if sym < 18 {
        acc.last()
    } else {
        0u8
    };
    let m = (if n < left {
        n
    } else {
        left
    }) as nat;
    assert(crate::codec::tables::equal_lengths(v, m) =~= Seq::new(m, |i: int| v));
}

// ── Slots ──────────────────────────────────────────────────────────────────

/// Length slots follow each other without a gap, from two on: eight of one
/// length each, then four of each number of extra bits.
pub proof fn lemma_length_slots_law(slot: int)
    requires
        0 <= slot,
    ensures
        length_slot_base(0) == 2,
        slot < 8 ==> length_slot_bits(slot) == 0,
        8 <= slot < 12 ==> length_slot_bits(slot) == 1,
        slot >= 8 ==> length_slot_bits(slot + 4) == length_slot_bits(slot) + 1,
        length_slot_base(slot + 1) == length_slot_base(slot) + pow2(length_slot_bits(slot)),
{
    lemma2_to64();
    let k = length_slot_bits(slot);
    if slot >= 8 {
        if slot % 4 == 3 {
            assert((slot + 1) / 4 == slot / 4 + 1);
            assert(length_slot_bits(slot + 1) == k + 1);
            lemma_pow2_unfold(k + 1);
        } else {
            assert((slot + 1) / 4 == slot / 4);
            assert((slot + 1) % 4 == slot % 4 + 1);
        }
        let r = slot % 4;
        assert((4 + r + 1) * pow2(k) == (4 + r) * pow2(k) + pow2(k)) by (nonlinear_arith);
        if r == 3 {
            assert(4 * (2 * pow2(k)) == 8 * pow2(k));
        }
    } else if slot == 7 {
        assert(length_slot_base(8) == 2 + 4 * pow2(1));
    }
}

/// Distance slots follow each other without a gap, from one on: four of one
/// distance each, then two of each number of extra bits.
pub proof fn lemma_distance_slots_law(slot: int)
    requires
        0 <= slot,
    ensures
        distance_slot_base(0) == 1,
        slot < 4 ==> distance_slot_bits(slot) == 0,
        4 <= slot < 6 ==> distance_slot_bits(slot) == 1,
        slot >= 4 ==> distance_slot_bits(slot + 2) == distance_slot_bits(slot) + 1,
        distance_slot_base(slot + 1) == distance_slot_base(slot) + pow2(distance_slot_bits(slot)),
{
    lemma2_to64();
    let k = distance_slot_bits(slot);
    if slot >= 4 {
        if slot % 2 == 1 {
            assert((slot + 1) / 2 == slot / 2 + 1);
            lemma_pow2_unfold(k + 1);
        } else {
            assert((slot + 1) / 2 == slot / 2);
        }
        let r = slot % 2;
        assert((2 + r + 1) * pow2(k) == (2 + r) * pow2(k) + pow2(k)) by (nonlinear_arith);
        if r == 1 {
            assert(2 * (2 * pow2(k)) == 4 * pow2(k));
        }
    } else if slot == 3 {
        assert(distance_slot_base(4) == 1 + 2 * pow2(1));
    }
}

/// The extra bits of a length slot count from its shortest length.
pub proof fn lemma_length_extra_law(slot: int, bits: Seq<bool>, pos: int)
    requires
        0 <= slot,
        0 <= pos,
        pos + length_slot_bits(slot) <= bits.len(),
    ensures
        spec_read_length(slot, bits, pos) == Ok::<(nat, int), CodecError>(
            (
                length_slot_base(slot) + bits_value(
                    bits.subrange(pos, pos + length_slot_bits(slot)),
                ),
                pos + length_slot_bits(slot),
            ),
        ),
{
    if slot < 8 {
        assert(bits.subrange(pos, pos) =~= Seq::<bool>::empty());
    }
}

/// The extra bits of a distance slot count from its shortest distance; of four
/// or more, the last four are spelled by a code of their own.
pub proof fn lemma_distance_extra_law(
    slot: int,
    ldc: Seq<u8>,
    bits: Seq<bool>,
    pos: int,
    low: int,
    next: int,
)
    requires
        0 <= slot,
        0 <= pos,
        pos + distance_slot_bits(slot) <= bits.len(),
        distance_slot_bits(slot) >= 4 ==> spec_decode_symbol(
            ldc,
            bits,
            pos + distance_slot_bits(slot) - 4,
        ) == Ok::<(int, int), CodecError>((low, next)) && low >= 0,
    ensures
        ({
            let k = distance_slot_bits(slot);
            let r = spec_read_distance(slot, ldc, bits, pos);
            if k < 4 {
                r == Ok::<(nat, int), CodecError>(
                    (distance_slot_base(slot) + bits_value(bits.subrange(pos, pos + k)), pos + k),
                )
            } else {
                r == Ok::<(nat, int), CodecError>(
                    (
                        (distance_slot_base(slot) + 16 * bits_value(
                            bits.subrange(pos, pos + k - 4),
                        ) + low) as nat,
                        next,
                    ),
                )
            }
        }),
{
    if slot < 4 {
        assert(bits.subrange(pos, pos) =~= Seq::<bool>::empty());
    }
}

// ── Symbols ────────────────────────────────────────────────────────────────

/// What the main code's symbols announce: 256 literals, a filter, the last
/// match once more, four remembered distances, and matches by length slot.
pub proof fn lemma_symbol_law(t: CodeLengths, bits: Seq<bool>, pos: int, s: int, p: int)
    requires
        spec_decode_symbol(t.nc, bits, pos) == Ok::<(int, int), CodecError>((s, p)),
        0 <= s < 306,
    ensures
        ({
            let r = spec_read_symbol(t, bits, pos);
            &&& s < 256 ==> r == Ok::<(Symbol, int), CodecError>((Symbol::Literal(s as u8), p))
            &&& s == 256 ==> r == read_filter(bits, p)
            &&& s == 257 ==> r == Ok::<(Symbol, int), CodecError>((Symbol::Repeat, p))
            &&& 258 <= s < 262 && r is Ok ==> {
                let slot = spec_decode_symbol(t.rc, bits, p)->Ok_0;
                let length = spec_read_length(slot.0, bits, slot.1)->Ok_0;
                &&& r->Ok_0.0 == (Symbol::CacheRef {
                    index: (s - 258) as usize,
                    length: length.0 as u32,
                })
                &&& r->Ok_0.1 == length.1
            }
            &&& s >= 262 && r is Ok ==> {
                let length = spec_read_length(s - 262, bits, p)->Ok_0;
                let slot = spec_decode_symbol(t.dc, bits, length.1)->Ok_0;
                let distance = spec_read_distance(slot.0, t.ldc, bits, slot.1)->Ok_0;
                &&& r->Ok_0.0 == (Symbol::Match {
                    distance: distance.0 as u64,
                    length: length.0 as u32,
                })
                &&& r->Ok_0.1 == distance.1
            }
        }),
{
    reveal(spec_read_symbol);
}

/// A filter record is two numbers, three bits of type and, for type zero, five
/// bits of one less than the channel count. A number is two bits of one less
/// than its bytes, and the bytes, lowest first.
pub proof fn lemma_filter_record_law(bits: Seq<bool>, pos: int)
    requires
        0 <= pos,
        pos + 28 <= bits.len(),
        bits_value(bits.subrange(pos, pos + 2)) == 0,
        bits_value(bits.subrange(pos + 10, pos + 12)) == 0,
    ensures
        ({
            let kind = bits_value(bits.subrange(pos + 20, pos + 23)) as int;
            read_filter(bits, pos) == Ok::<(Symbol, int), CodecError>(
                (
                    Symbol::Filter {
                        block_start: bits_value(bits.subrange(pos + 2, pos + 10)) as u32,
                        block_length: bits_value(bits.subrange(pos + 12, pos + 20)) as u32,
                        filter_type: kind as u8,
                        channels: if kind == 0 {
                            (bits_value(bits.subrange(pos + 23, pos + 28)) + 1) as u8
                        } else {
                            0
                        },
                    },
                    if kind == 0 {
                        pos + 28
                    } else {
                        pos + 23
                    },
                ),
            )
        }),
{
    reveal_with_fuel(crate::codec::symbols::read_le, 2);
}

/// The bytes of a number in a filter record go from the lowest to the highest.
pub proof fn lemma_record_number_law(bits: Seq<bool>, pos: int, n: nat)
    requires
        0 <= pos,
        n > 0,
        pos + 8 * n <= bits.len(),
    ensures
        crate::codec::symbols::read_le(bits, pos, n) is Ok,
        crate::codec::symbols::read_le(bits, pos, n)->Ok_0.1 == pos + 8 * n,
        crate::codec::symbols::read_le(bits, pos, n)->Ok_0.0 == bits_value(
            bits.subrange(pos, pos + 8),
        ) + 256 * (if n == 1 {
            0
        } else {
            crate::codec::symbols::read_le(bits, pos + 8, (n - 1) as nat)->Ok_0.0
        }),
    decreases n,
{
    if n > 1 {
        lemma_record_number_law(bits, pos + 8, (n - 1) as nat);
    }
}

// ── What symbols do ────────────────────────────────────────────────────────

proof fn lemma_copy_law(out: Seq<u8>, n: int, d: int, len: nat)
    requires
        0 < d <= out.len(),
        d <= n,
    ensures
        copied(out, n, d, len).len() == out.len() + len,
        forall|i: int|
            0 <= i < out.len() ==> #[trigger] copied(out, n, d, len)[i] == out[i],
        forall|i: int|
            out.len() <= i < out.len() + len ==> #[trigger] copied(out, n, d, len)[i] == copied(
                out,
                n,
                d,
                len,
            )[i - d],
    decreases len,
{
    if len > 0 {
        let o = copied(out, n, d, (len - 1) as nat);
        lemma_copy_law(out, n, d, (len - 1) as nat);
        assert(d % n == if d == n {
            0
        } else {
            d
        }) by {
            if d < n {
                lemma_small_mod(d as nat, n as nat);
            } else {
                lemma_mod_self_0(n);
            }
        }
        let w = copied(out, n, d, len);
        assert(w == o.push(o[o.len() - d]));
        assert forall|i: int| out.len() <= i < out.len() + len implies #[trigger] w[i] == w[i
            - d] by {
            if i < o.len() {
                assert(w[i] == o[i]);
                assert(w[i - d] == o[i - d]);
                assert(o[i] == o[i - d]);
            } else {
                assert(w[i - d] == o[i - d]);
            }
        }
    }
}

/// A literal is one more byte of output.
pub proof fn lemma_literal_law(z: Lz, n: int, b: u8)
    ensures
        ({
            let y = apply_symbol(z, n, Symbol::Literal(b));
            &&& y.out == z.out.push(b)
            &&& y.cache == z.cache && y.last == z.last && y.filters == z.filters
        }),
{
}

/// A match repeats what stands at its distance, as many bytes as its length and
/// one more for each of three limits that the distance exceeds. Its distance is
/// remembered first, the others move down.
pub proof fn lemma_match_law(z: Lz, n: int, distance: u64, length: u32)
    requires
        0 < distance <= z.out.len(),
        distance <= n,
        length <= 0x1001,
        z.cache.len() == 4,
    ensures
        ({
            let y = apply_symbol(z, n, Symbol::Match { distance, length });
            let l = length + if distance <= 0x100 {
                0int
            } else if distance <= 0x2000 {
                1
            } else if distance <= 0x40000 {
                2
            } else {
                3
            };
            &&& y.out.len() == z.out.len() + l
            &&& y.out.subrange(0, z.out.len() as int) == z.out
            &&& forall|i: int|
                z.out.len() <= i < y.out.len() ==> #[trigger] y.out[i] == y.out[i - distance]
            &&& y.last == l
            &&& y.cache.len() == 4
            &&& y.cache[0] == distance
            &&& forall|i: int| 0 <= i < 3 ==> y.cache[i + 1] == #[trigger] z.cache[i]
            &&& y.filters == z.filters
        }),
{
    let bonus = crate::codec::slots::spec_length_bonus(distance as int);
    lemma_copy_law(z.out, n, distance as int, (length + bonus) as nat);
    let y = apply_symbol(z, n, Symbol::Match { distance, length });
    assert(y.out.subrange(0, z.out.len() as int) =~= z.out);
}

/// A match at a remembered distance has no bonus; the distance comes to the
/// front, and those before it move down.
pub proof fn lemma_cache_law(z: Lz, n: int, index: usize, length: u32)
    requires
        index < 4,
        z.cache.len() == 4,
        0 < z.cache[index as int] <= z.out.len(),
        z.cache[index as int] <= n,
    ensures
        ({
            let d = z.cache[index as int] as int;
            let y = apply_symbol(z, n, Symbol::CacheRef { index, length });
            &&& y.out.len() == z.out.len() + length
            &&& y.out.subrange(0, z.out.len() as int) == z.out
            &&& forall|i: int|
                z.out.len() <= i < y.out.len() ==> #[trigger] y.out[i] == y.out[i - d]
            &&& y.last == length
            &&& y.cache.len() == 4
            &&& y.cache[0] == d
            &&& forall|i: int| 0 <= i < index ==> y.cache[i + 1] == #[trigger] z.cache[i]
            &&& forall|i: int| index < i < 4 ==> y.cache[i] == #[trigger] z.cache[i]
            &&& y.filters == z.filters
        }),
{
    lemma_copy_law(z.out, n, z.cache[index as int] as int, length as nat);
    let y = apply_symbol(z, n, Symbol::CacheRef { index, length });
    assert(y.out.subrange(0, z.out.len() as int) =~= z.out);
}

/// The last match once more: its length, at the distance remembered first.
/// Before any match it is nothing.
pub proof fn lemma_repeat_law(z: Lz, n: int)
    requires
        z.cache.len() == 4,
        z.last > 0 ==> 0 < z.cache[0] <= z.out.len() && z.cache[0] <= n,
    ensures
        ({
            let d = z.cache[0] as int;
            let y = apply_symbol(z, n, Symbol::Repeat);
            &&& y.out.len() == z.out.len() + z.last
            &&& y.out.subrange(0, z.out.len() as int) == z.out
            &&& forall|i: int|
                z.out.len() <= i < y.out.len() ==> #[trigger] y.out[i] == y.out[i - d]
            &&& y.cache == z.cache && y.last == z.last && y.filters == z.filters
        }),
{
    let y = apply_symbol(z, n, Symbol::Repeat);
    if z.last > 0 {
        lemma_copy_law(z.out, n, z.cache[0] as int, z.last as nat);
    }
    assert(y.out.subrange(0, z.out.len() as int) =~= z.out);
}

/// A filter record covers a region that starts as many bytes behind the output
/// as it says.
pub proof fn lemma_record_law(
    z: Lz,
    n: int,
    block_start: u32,
    block_length: u32,
    filter_type: u8,
    channels: u8,
)
    requires
        z.out.len() + block_start <= u64::MAX,
    ensures
        ({
            let y = apply_symbol(
                z,
                n,
                Symbol::Filter { block_start, block_length, filter_type, channels },
            );
            &&& y.out == z.out && y.cache == z.cache && y.last == z.last
            &&& y.filters.len() == z.filters.len() + 1
            &&& y.filters.drop_last() == z.filters
            &&& y.filters.last().block_start == z.out.len() + block_start
            &&& y.filters.last().block_length == block_length
            &&& y.filters.last().filter_type == filter_type
            &&& y.filters.last().channels == channels
        }),
{
    let y = apply_symbol(
        z,
        n,
        Symbol::Filter { block_start, block_length, filter_type, channels },
    );
    assert(y.filters.drop_last() =~= z.filters);
}

// ── Filters ────────────────────────────────────────────────────────────────

/// Differences stand channel by channel: those of one channel next to each
/// other, and behind them those of the next.
pub proof fn lemma_delta_order_law(n: int, c: int, p: int)
    requires
        0 < c,
        0 <= p < n,
    ensures
        delta_src(n, c, 0) == 0,
        p + c < n ==> delta_src(n, c, p + c) == delta_src(n, c, p) + 1,
        p + 1 < c ==> delta_src(n, c, p + 1) == delta_src(n, c, p) + (n - p + c - 1) / c,
{
    lemma_small_mod(0, c as nat);
    assert(0int / c == 0) by (nonlinear_arith)
        requires
            c > 0,
    ;
    assert(0 * (n / c) == 0);
    assert((p + c) % c == p % c && (p + c) / c == p / c + 1) by {
        lemma_fundamental_div_mod(p, c);
        lemma_mod_bound(p, c);
        assert((p / c + 1) * c == c * (p / c) + c) by (nonlinear_arith);
        lemma_fundamental_div_mod_converse(p + c, c, p / c + 1, p % c);
    }
    if p + 1 < c {
        lemma_small_mod(p as nat, c as nat);
        lemma_small_mod((p + 1) as nat, c as nat);
        assert(p / c == 0 && (p + 1) / c == 0) by {
            lemma_basic_div(p, c);
            lemma_basic_div(p + 1, c);
        }
        let q = n / c;
        let r = n % c;
        lemma_fundamental_div_mod(n, c);
        lemma_mod_bound(n, c);
        assert((p + 1) * q == p * q + q) by (nonlinear_arith);
        if p < r {
            assert((n - p + c - 1) / c == q + 1) by {
                assert((q + 1) * c == c * q + c) by (nonlinear_arith);
                lemma_fundamental_div_mod_converse(n - p + c - 1, c, q + 1, r - p - 1);
            }
        } else {
            assert((n - p + c - 1) / c == q) by {
                assert(q * c == c * q) by (nonlinear_arith);
                lemma_fundamental_div_mod_converse(n - p + c - 1, c, q, r - p + c - 1);
            }
        }
    }
}

/// A difference is taken from the byte before in the channel, zero at its
/// start. Filter zero undoes this.
pub proof fn lemma_delta_law(d: Seq<u8>, channels: u8, offset: int, p: int)
    requires
        channels > 0,
        0 <= p < d.len(),
    ensures
        ({
            let out = filter_decoded(0, d, channels, offset);
            let before = if p < channels {
                0int
            } else {
                out[p - channels] as int
            };
            &&& out.len() == d.len()
            &&& (before - out[p] - d[delta_src(d.len() as int, channels as int, p)]) % 256 == 0
        }),
{
    let out = filter_decoded(0, d, channels, offset);
    assert(out[p] == delta_byte(d, channels as int, p));
    if p >= channels {
        assert(out[p - channels] == delta_byte(d, channels as int, p - channels));
    }
}

/// Filter three takes the place of every branch, in words, off its target.
pub proof fn lemma_arm_law(data: Seq<u8>, channels: u8, offset: int, j: int)
    requires
        0 <= offset,
        offset % 4 == 0,
        0 <= j,
        4 * j + 4 <= data.len(),
    ensures
        ({
            let out = filter_decoded(3, data, channels, offset);
            let v = data[4 * j] + 256 * data[4 * j + 1] + 65536 * data[4 * j + 2];
            let w = out[4 * j] + 256 * out[4 * j + 1] + 65536 * out[4 * j + 2];
            &&& out.len() == data.len()
            &&& out[4 * j + 3] == data[4 * j + 3]
            &&& data[4 * j + 3] == 0xEB ==> (v - w - (offset / 4 + j)) % 0x100_0000 == 0
            &&& data[4 * j + 3] != 0xEB ==> w == v
        }),
    decreases j,
{
    reveal(le24);
    reveal(le24_bytes);
    let out = filter_decoded(3, data, channels, offset);
    lemma_arm_len(data, offset, false);
    let rest = data.subrange(4, data.len() as int);
    lemma_arm_len(rest, offset + 4, false);
    let tail = arm_mapped(rest, offset + 4, false);
    let v0 = le24(data);
    let w0 = (v0 - offset / 4) % 0x100_0000;
    if j == 0 {
        assert(v0 == data[0] + 256 * data[1] + 65536 * data[2]);
        if data[3] == 0xEB {
            let b = le24_bytes(w0);
            assert(out[0] == b[0] && out[1] == b[1] && out[2] == b[2]);
            assert(b[0] + 256 * b[1] + 65536 * b[2] == w0);
        }
    } else {
        lemma_arm_law(rest, channels, offset + 4, j - 1);
        assert forall|i: int| 4 <= i < data.len() implies out[i] == tail[i - 4] by {}
        assert((offset + 4) / 4 == offset / 4 + 1);
        assert(4 * (j - 1) == 4 * j - 4);
        assert(rest[4 * (j - 1)] == data[4 * j]);
        assert(rest[4 * (j - 1) + 1] == data[4 * j + 1]);
        assert(rest[4 * (j - 1) + 2] == data[4 * j + 2]);
        assert(rest[4 * (j - 1) + 3] == data[4 * j + 3]);
        assert(out[4 * j] == tail[4 * (j - 1)]);
        assert(out[4 * j + 1] == tail[4 * (j - 1) + 1]);
        assert(out[4 * j + 2] == tail[4 * (j - 1) + 2]);
        assert(out[4 * j + 3] == tail[4 * (j - 1) + 3]);
    }
}

proof fn lemma_number_of_bytes(w: int)
    requires
        0 <= w < 0x1_0000_0000,
    ensures
        ({
            let b = le32_bytes(w);
            &&& b.len() == 4
            &&& b[0] + 256 * b[1] + 65536 * b[2] + 16777216 * b[3] == w
        }),
{
    reveal(le32_bytes);
}

/// The first target, where the data starts with its opcode.
#[verifier::rlimit(40)]
#[verifier::spinoff_prover]
proof fn lemma_x86_first(data: Seq<u8>, kind: u8, channels: u8, offset: int)
    requires
        kind == 1 || kind == 2,
        0 <= offset,
        5 <= data.len(),
        data[0] == 0xE8 || kind == 2 && data[0] == 0xE9,
    ensures
        ({
            let out = filter_decoded(kind, data, channels, offset);
            let at = (offset + 1) % 0x100_0000;
            let v = data[1] + 256 * data[2] + 65536 * data[3] + 16777216 * data[4];
            let w = out[1] + 256 * out[2] + 65536 * out[3] + 16777216 * out[4];
            &&& out.len() == data.len()
            &&& out[0] == data[0]
            &&& v < 0x100_0000 ==> (w + at - v) % 0x1_0000_0000 == 0
            &&& v >= 0x1_0000_0000 - at ==> w == v - 0x1_0000_0000 + 0x100_0000
            &&& 0x100_0000 <= v < 0x1_0000_0000 - at ==> w == v
            &&& out.skip(5) == filter_decoded(kind, data.skip(5), channels, offset + 5)
        }),
{
    reveal(le32);
    let e9 = kind == 2;
    let out = filter_decoded(kind, data, channels, offset);
    lemma_x86_len(data, offset, e9, false);
    let at = (offset + 1) % 0x100_0000;
    let s = data.subrange(1, 5);
    let v = le32(s);
    assert(v == data[1] + 256 * data[2] + 65536 * data[3] + 16777216 * data[4]);
    let w = crate::codec::filters::x86_relative(v, at);
    let b = le32_bytes(w);
    assert(0 <= w < 0x1_0000_0000);
    lemma_number_of_bytes(w);
    let rest = data.subrange(5, data.len() as int);
    let tail = x86_mapped(rest, offset + 5, e9, false);
    lemma_x86_len(rest, offset + 5, e9, false);
    assert(out == seq![data[0]] + b + tail);
    assert(out[1] == b[0] && out[2] == b[1] && out[3] == b[2] && out[4] == b[3]);
    assert(out.skip(5) =~= tail);
    assert(data.skip(5) =~= rest);
}

/// Filters one and two turn the absolute target behind the first call (0xE8),
/// or for filter two also jump (0xE9), into one relative to its place: targets
/// within sixteen megabytes, and those that lie before the start. What stands
/// before it stays, and what follows is looked at on its own.
#[verifier::rlimit(60)]
#[verifier::spinoff_prover]
pub proof fn lemma_x86_law(data: Seq<u8>, kind: u8, channels: u8, offset: int, i: int)
    requires
        kind == 1 || kind == 2,
        0 <= offset,
        0 <= i,
        i + 5 <= data.len(),
        forall|k: int|
            0 <= k < i ==> #[trigger] data[k] != 0xE8 && (kind == 2 ==> data[k] != 0xE9),
        data[i] == 0xE8 || kind == 2 && data[i] == 0xE9,
    ensures
        ({
            let out = filter_decoded(kind, data, channels, offset);
            let at = (offset + i + 1) % 0x100_0000;
            let v = data[i + 1] + 256 * data[i + 2] + 65536 * data[i + 3] + 16777216 * data[i + 4];
            let w = out[i + 1] + 256 * out[i + 2] + 65536 * out[i + 3] + 16777216 * out[i + 4];
            &&& out.len() == data.len()
            &&& out.subrange(0, i + 1) == data.subrange(0, i + 1)
            &&& v < 0x100_0000 ==> (w + at - v) % 0x1_0000_0000 == 0
            &&& v >= 0x1_0000_0000 - at ==> w == v - 0x1_0000_0000 + 0x100_0000
            &&& 0x100_0000 <= v < 0x1_0000_0000 - at ==> w == v
            &&& out.skip(i + 5) == filter_decoded(
                kind,
                data.skip(i + 5),
                channels,
                offset + i + 5,
            )
        }),
    decreases i,
{
    let e9 = kind == 2;
    let out = filter_decoded(kind, data, channels, offset);
    lemma_x86_len(data, offset, e9, false);
    if i == 0 {
        lemma_x86_first(data, kind, channels, offset);
        assert(out.subrange(0, 1) =~= data.subrange(0, 1));
    } else {
        let rest = data.subrange(1, data.len() as int);
        let tail = x86_mapped(rest, offset + 1, e9, false);
        lemma_x86_len(rest, offset + 1, e9, false);
        assert(data[0] != 0xE8 && (e9 ==> data[0] != 0xE9));
        assert(out == seq![data[0]] + tail);
        assert forall|k: int| 0 <= k < i - 1 implies #[trigger] rest[k] != 0xE8 && (kind == 2
            ==> rest[k] != 0xE9) by {
            assert(rest[k] == data[k + 1]);
        }
        assert(rest[i - 1] == data[i]);
        lemma_x86_law(rest, kind, channels, offset + 1, i - 1);
        assert(out.skip(i + 5) =~= tail.skip(i + 4));
        assert(data.skip(i + 5) =~= rest.skip(i + 4));
        assert(out.subrange(0, i + 1) =~= data.subrange(0, i + 1)) by {
            assert forall|k: int| 0 <= k < i + 1 implies out[k] == data[k] by {
                if k > 0 {
                    assert(tail.subrange(0, i)[k - 1] == rest.subrange(0, i)[k - 1]);
                }
            }
        }
    }
}

/// Where no opcode has its target within the data, filters one and two change
/// nothing.
pub proof fn lemma_x86_plain_law(data: Seq<u8>, kind: u8, channels: u8, offset: int)
    requires
        kind == 1 || kind == 2,
        forall|k: int|
            0 <= k < data.len() - 4 ==> #[trigger] data[k] != 0xE8 && (kind == 2 ==> data[k]
                != 0xE9),
    ensures
        filter_decoded(kind, data, channels, offset) == data,
    decreases data.len(),
{
    if data.len() > 4 {
        let rest = data.subrange(1, data.len() as int);
        assert forall|k: int| 0 <= k < rest.len() - 4 implies #[trigger] rest[k] != 0xE8 && (kind
            == 2 ==> rest[k] != 0xE9) by {
            assert(rest[k] == data[k + 1]);
        }
        lemma_x86_plain_law(rest, kind, channels, offset + 1);
        assert(data[0] != 0xE8);
        assert(seq![data[0]] + rest =~= data);
    }
}

// ── Finding x86 code ───────────────────────────────────────────────────────

/// A stretch is worth a filter from sixteen opcodes on; it goes from the first
/// to behind the last one's target.
pub proof fn lemma_stretch_law(open: bool, first: int, last: int, ops: int)
    requires
        0 <= first <= last,
        last + 5 <= usize::MAX,
    ensures
        open && ops >= 16 ==> x86_stretch(open, first, last, ops).len() == 1 && x86_stretch(
            open,
            first,
            last,
            ops,
        )[0].start == first && x86_stretch(open, first, last, ops)[0].end == last + 5,
        !open || ops < 16 ==> x86_stretch(open, first, last, ops).len() == 0,
{
}

/// An opcode counts where its target is plausible: less than sixteen megabytes
/// ahead or back. It goes on with a stretch where it stands no more than 256
/// bytes behind the opcode before, and else starts one.
pub proof fn lemma_stretches_law(
    data: Seq<u8>,
    with_e9: bool,
    i: int,
    open: bool,
    first: int,
    last: int,
    ops: int,
)
    requires
        0 <= i,
        i + 5 <= data.len(),
    ensures
        ({
            let v = data[i + 1] + 256 * data[i + 2] + 65536 * data[i + 3] + 16777216 * data[i + 4];
            let op = (data[i] == 0xE8 || with_e9 && data[i] == 0xE9) && (v < 0x100_0000 || v
                >= 0xFF00_0000);
            x86_stretches(data, with_e9, i, open, first, last, ops) == if !op {
                x86_stretches(data, with_e9, i + 1, open, first, last, ops)
            } else if open && i - last <= 256 {
                x86_stretches(data, with_e9, i + 5, true, first, i, ops + 1)
            } else {
                x86_stretch(open, first, last, ops) + x86_stretches(
                    data,
                    with_e9,
                    i + 5,
                    true,
                    i,
                    i,
                    1,
                )
            }
        }),
{
    reveal(le32);
    let s = data.subrange(i + 1, i + 5);
    assert(le32(s) == data[i + 1] + 256 * data[i + 2] + 65536 * data[i + 3] + 16777216 * data[i
        + 4]);
}

} // verus!
