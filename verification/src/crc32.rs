//! CRC-32 primitives.
//!
//! Header checksums are the low 16 bits of a CRC, and the oldest stream
//! ciphers step the CRC table as their key schedule, so both the finished
//! checksum and the raw table stand here.

use vstd::prelude::*;

verus! {

/// One division step by the reflected polynomial 0xEDB88320.
pub open spec fn crc_bit(v: u32) -> u32 {
    if v & 1 == 1 {
        (v >> 1) ^ 0xedb8_8320
    } else {
        v >> 1
    }
}

/// `n` division steps.
pub open spec fn crc_bits(v: u32, n: nat) -> u32
    decreases n,
{
    if n == 0 {
        v
    } else {
        crc_bit(crc_bits(v, (n - 1) as nat))
    }
}

/// The `index`-th entry of the reflected CRC-32 table.
pub open spec fn spec_table_entry(index: u8) -> u32 {
    crc_bits(index as u32, 8)
}

/// The running CRC after one more byte.
pub open spec fn crc_byte(crc: u32, byte: u8) -> u32 {
    (crc >> 8) ^ spec_table_entry(((crc & 0xff) as u8) ^ byte)
}

/// The running CRC after the bytes `s`, from the state `crc`.
pub open spec fn crc_from(crc: u32, s: Seq<u8>) -> u32
    decreases s.len(),
{
    if s.len() == 0 {
        crc
    } else {
        crc_byte(crc_from(crc, s.drop_last()), s.last())
    }
}

/// The running CRC of `s`, not inverted at the end.
pub open spec fn spec_crc32_raw(s: Seq<u8>) -> u32 {
    crc_from(0xffff_ffff, s)
}

/// The CRC-32 of `s`.
pub open spec fn spec_crc32(s: Seq<u8>) -> u32 {
    !spec_crc32_raw(s)
}

/// Running over `a` and then over `b` is running over both.
pub proof fn lemma_crc_concat(crc: u32, a: Seq<u8>, b: Seq<u8>)
    ensures
        crc_from(crc, a + b) == crc_from(crc_from(crc, a), b),
    decreases b.len(),
{
    if b.len() == 0 {
        assert(a + b =~= a);
    } else {
        assert((a + b).drop_last() =~= a + b.drop_last());
        lemma_crc_concat(crc, a, b.drop_last());
    }
}

proof fn lemma_not_not(v: u32)
    ensures
        !!v == v,
        !0u32 == 0xffff_ffffu32,
{
    assert(!!v == v) by (bit_vector);
    assert(!0u32 == 0xffff_ffffu32) by (bit_vector);
}

/// The raw checksum is the finished one, inverted.
pub proof fn lemma_raw_is_inverted(s: Seq<u8>)
    ensures
        !spec_crc32_raw(s) == spec_crc32(s),
        !spec_crc32(s) == spec_crc32_raw(s),
{
    lemma_not_not(spec_crc32_raw(s));
}

/// `crc32fast::Hasher`, started with `new_with_initial`, fed once and
/// finished. Claimed: the result is the IEEE CRC-32, reflected polynomial
/// 0xEDB88320 with the state inverted before and after, carried on from
/// `crc` over `input`; an initial value of zero is what `Hasher::new` starts
/// with.
#[verifier::external_body]
fn crc32fast_update(crc: u32, input: &[u8]) -> (r: u32)
    ensures
        r == !crc_from(!crc, input@),
{
    let mut hasher = crc32fast::Hasher::new_with_initial(crc);
    hasher.update(input);
    hasher.finalize()
}

/// The standard (IEEE, reflected 0xEDB88320) CRC-32 of `input`.
pub fn crc32(input: &[u8]) -> (r: u32)
    ensures
        r == spec_crc32(input@),
{
    proof {
        lemma_not_not(0);
    }
    crc32fast_update(0, input)
}

/// Carry the checksum `crc` of some bytes on over `input`.
pub fn crc32_update(crc: u32, input: &[u8]) -> (r: u32)
    ensures
        forall|s: Seq<u8>| crc == #[trigger] spec_crc32(s) ==> r == spec_crc32(s + input@),
{
    let r = crc32fast_update(crc, input);
    proof {
        assert forall|s: Seq<u8>| crc == #[trigger] spec_crc32(s) implies r == spec_crc32(
            s + input@,
        ) by {
            lemma_raw_is_inverted(s);
            lemma_crc_concat(0xffff_ffff, s, input@);
        }
    }
    r
}

/// Uninverted running CRC as the oldest ciphers use it.
pub fn crc32_raw(input: &[u8]) -> (r: u32)
    ensures
        r == spec_crc32_raw(input@),
{
    let mut crc: u32 = 0xffff_ffff;
    let mut i: usize = 0;
    while i < input.len()
        invariant
            i <= input@.len(),
            crc == spec_crc32_raw(input@.take(i as int)),
        decreases input@.len() - i,
    {
        proof {
            assert(input@.take(i + 1).drop_last() =~= input@.take(i as int));
            assert((crc & 0xff) < 256) by (bit_vector);
        }
        crc = (crc >> 8) ^ table_entry(((crc & 0xff) as u8) ^ input[i]);
        i += 1;
    }
    proof {
        assert(input@.take(i as int) =~= input@);
    }
    crc
}

/// The `index`-th entry of the reflected CRC-32 table.
pub fn table_entry(index: u8) -> (r: u32)
    ensures
        r == spec_table_entry(index),
{
    let mut value: u32 = index as u32;
    let mut bit: usize = 0;
    while bit < 8
        invariant
            bit <= 8,
            value == crc_bits(index as u32, bit as nat),
        decreases 8 - bit,
    {
        value = if value & 1 == 1 {
            (value >> 1) ^ 0xedb8_8320
        } else {
            value >> 1
        };
        bit += 1;
    }
    value
}

} // verus!
