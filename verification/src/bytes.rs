//! Little-endian numbers in byte strings.

use vstd::prelude::*;

verus! {

/// The number that `s` spells, least significant byte first.
pub open spec fn le_value(s: Seq<u8>) -> nat
    decreases s.len(),
{
    if s.len() == 0 {
        0
    } else {
        s[0] as nat + 256 * le_value(s.drop_first())
    }
}

/// The `n` low bytes of `v`, least significant first.
pub open spec fn le_bytes(v: nat, n: nat) -> Seq<u8>
    decreases n,
{
    if n == 0 {
        Seq::empty()
    } else {
        seq![(v % 256) as u8] + le_bytes(v / 256, (n - 1) as nat)
    }
}

/// 256 to the power `n`.
pub open spec fn byte_range(n: nat) -> nat
    decreases n,
{
    if n == 0 {
        1
    } else {
        256 * byte_range((n - 1) as nat)
    }
}

/// `n` bytes are what [`le_bytes`] makes.
pub proof fn lemma_le_bytes_len(v: nat, n: nat)
    ensures
        le_bytes(v, n).len() == n,
    decreases n,
{
    if n > 0 {
        lemma_le_bytes_len(v / 256, (n - 1) as nat);
    }
}

/// Reading back the bytes of a number that fits them gives the number.
pub proof fn lemma_le_roundtrip(v: nat, n: nat)
    requires
        v < byte_range(n),
    ensures
        le_value(le_bytes(v, n)) == v,
        le_bytes(v, n).len() == n,
    decreases n,
{
    if n > 0 {
        assert(v / 256 < byte_range((n - 1) as nat));
        lemma_le_roundtrip(v / 256, (n - 1) as nat);
        assert(le_bytes(v, n).drop_first() =~= le_bytes(v / 256, (n - 1) as nat));
    }
}

/// Writing a number read from `s` gives `s` back.
pub proof fn lemma_le_unique(s: Seq<u8>)
    ensures
        le_bytes(le_value(s), s.len()) == s,
        le_value(s) < byte_range(s.len()),
    decreases s.len(),
{
    if s.len() > 0 {
        let rest = s.drop_first();
        lemma_le_unique(rest);
        assert(le_value(s) == s[0] as nat + 256 * le_value(rest));
        assert(le_value(s) % 256 == s[0] as nat);
        assert(le_value(s) / 256 == le_value(rest));
        assert(le_bytes(le_value(s), s.len()) =~= s);
    } else {
        assert(le_bytes(le_value(s), 0) =~= s);
    }
}

/// The limits of the machine's unsigned integers as byte ranges.
pub proof fn lemma_byte_ranges()
    ensures
        byte_range(1) == 0x100,
        byte_range(2) == 0x1_0000,
        byte_range(3) == 0x100_0000,
        byte_range(4) == 0x1_0000_0000,
        byte_range(8) == 0x1_0000_0000_0000_0000,
{
    reveal_with_fuel(byte_range, 9);
}

/// Numbers of two and four bytes, spelled out.
pub proof fn lemma_two_bytes(s: Seq<u8>, at: int)
    requires
        0 <= at,
        at + 2 <= s.len(),
    ensures
        le_value(s.subrange(at, at + 2)) == s[at] + 256 * s[at + 1],
{
    reveal_with_fuel(le_value, 3);
    let t = s.subrange(at, at + 2);
    assert(t.drop_first() =~= s.subrange(at + 1, at + 2));
}

pub proof fn lemma_four_bytes(s: Seq<u8>, at: int)
    requires
        0 <= at,
        at + 4 <= s.len(),
    ensures
        le_value(s.subrange(at, at + 4)) == s[at] + 256 * s[at + 1] + 65536 * s[at + 2] + 16777216
            * s[at + 3],
{
    reveal_with_fuel(le_value, 5);
    let t = s.subrange(at, at + 4);
    assert(t.drop_first() =~= s.subrange(at + 1, at + 4));
    assert(t.drop_first().drop_first() =~= s.subrange(at + 2, at + 4));
    assert(t.drop_first().drop_first().drop_first() =~= s.subrange(at + 3, at + 4));
}

/// The bytes of a number go from the lowest to the highest.
pub proof fn lemma_lowest_first(v: nat, n: nat)
    requires
        n > 0,
    ensures
        le_bytes(v, n).len() == n,
        le_bytes(v, n)[0] == v % 256,
        n >= 2 ==> le_bytes(v, n)[1] == v / 256 % 256,
        n >= 3 ==> le_bytes(v, n)[2] == v / 65536 % 256,
        n >= 4 ==> le_bytes(v, n)[3] == v / 16777216 % 256,
{
    reveal_with_fuel(le_bytes, 5);
    lemma_le_bytes_len(v, n);
    assert(v / 256 / 256 == v / 65536);
    assert(v / 65536 / 256 == v / 16777216);
}

/// Append the `n` low bytes of `v`, least significant first.
pub fn push_le(out: &mut Vec<u8>, v: u64, n: usize)
    ensures
        final(out)@ == old(out)@ + le_bytes(v as nat, n as nat),
    decreases n,
{
    let ghost before = out@;
    if n > 0 {
        out.push((v % 256) as u8);
        push_le(out, v / 256, n - 1);
    }
    assert(out@ =~= before + le_bytes(v as nat, n as nat));
}

/// The number that `n` bytes of `data` spell from `at` on.
pub fn read_le(data: &[u8], at: usize, n: usize) -> (v: u64)
    requires
        at + n <= data@.len(),
        n <= 8,
    ensures
        v as nat == le_value(data@.subrange(at as int, at + n)),
    decreases n,
{
    let ghost s = data@.subrange(at as int, at + n);
    let total = data.len();
    if n == 0 || at >= total {
        0
    } else {
        let rest = read_le(data, at + 1, n - 1);
        proof {
            assert(s.drop_first() =~= data@.subrange(at + 1, at + n));
            lemma_le_unique(s.drop_first());
            lemma_byte_range_le((n - 1) as nat, 7);
            reveal_with_fuel(byte_range, 9);
        }
        data[at] as u64 + 256 * rest
    }
}

/// More bytes hold no less.
pub proof fn lemma_byte_range_le(a: nat, b: nat)
    requires
        a <= b,
    ensures
        byte_range(a) <= byte_range(b),
    decreases b,
{
    if a < b {
        lemma_byte_range_le(a, (b - 1) as nat);
    }
}

/// Two bytes of `data` from `at` on, as a number.
pub fn read_u16(data: &[u8], at: usize) -> (v: u16)
    requires
        at + 2 <= data@.len(),
    ensures
        v as nat == le_value(data@.subrange(at as int, at + 2)),
{
    proof {
        lemma_le_unique(data@.subrange(at as int, at + 2));
        lemma_byte_ranges();
    }
    read_le(data, at, 2) as u16
}

/// Four bytes of `data` from `at` on, as a number.
pub fn read_u32(data: &[u8], at: usize) -> (v: u32)
    requires
        at + 4 <= data@.len(),
    ensures
        v as nat == le_value(data@.subrange(at as int, at + 4)),
{
    proof {
        lemma_le_unique(data@.subrange(at as int, at + 4));
        lemma_byte_ranges();
    }
    read_le(data, at, 4) as u32
}

} // verus!
