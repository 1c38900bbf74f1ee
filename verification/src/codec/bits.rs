//! Bit sequences, most significant bit first: the model every bitstream
//! contract of the codec is written over.

use vstd::arithmetic::div_mod::*;
use vstd::arithmetic::mul::*;
use vstd::arithmetic::power2::*;
use vstd::bits::*;
use vstd::prelude::*;

verus! {

/// The low `n` bits of `v`, most significant first.
pub open spec fn value_bits(v: nat, n: nat) -> Seq<bool>
    decreases n,
{
    if n == 0 {
        Seq::empty()
    } else {
        value_bits(v / 2, (n - 1) as nat).push(v % 2 == 1)
    }
}

/// The number a bit sequence spells, most significant bit first.
pub open spec fn bits_value(b: Seq<bool>) -> nat
    decreases b.len(),
{
    if b.len() == 0 {
        0
    } else {
        2 * bits_value(b.drop_last()) + if b.last() {
            1nat
        } else {
            0nat
        }
    }
}

/// The bits of a byte string.
pub open spec fn bits_of(data: Seq<u8>) -> Seq<bool>
    decreases data.len(),
{
    if data.len() == 0 {
        Seq::empty()
    } else {
        bits_of(data.drop_last()) + value_bits(data.last() as nat, 8)
    }
}

/// `w` stands in `bits` at position `pos`.
pub open spec fn bits_at(bits: Seq<bool>, pos: int, w: Seq<bool>) -> bool {
    &&& 0 <= pos
    &&& pos + w.len() <= bits.len()
    &&& bits.subrange(pos, pos + w.len()) =~= w
}

/// `n` zero bits.
pub open spec fn zero_bits(n: nat) -> Seq<bool> {
    Seq::new(n, |i: int| false)
}

/// The first position at or after `pos` that starts a byte.
pub open spec fn byte_align(pos: int) -> int {
    (pos + 7) / 8 * 8
}

pub proof fn lemma_value_bits_len(v: nat, n: nat)
    ensures
        value_bits(v, n).len() == n,
    decreases n,
{
    if n > 0 {
        lemma_value_bits_len(v / 2, (n - 1) as nat);
    }
}

pub proof fn lemma_bits_of_len(data: Seq<u8>)
    ensures
        bits_of(data).len() == 8 * data.len(),
    decreases data.len(),
{
    if data.len() > 0 {
        lemma_bits_of_len(data.drop_last());
        lemma_value_bits_len(data.last() as nat, 8);
    }
}

pub proof fn lemma_bits_value_bound(b: Seq<bool>)
    ensures
        bits_value(b) < pow2(b.len()),
    decreases b.len(),
{
    if b.len() == 0 {
        lemma2_to64();
    } else {
        lemma_bits_value_bound(b.drop_last());
        lemma_pow2_unfold(b.len());
    }
}

/// Reading back the bits of a value gives the value, cut to the width.
pub proof fn lemma_value_of_bits(v: nat, n: nat)
    ensures
        bits_value(value_bits(v, n)) == v % pow2(n),
    decreases n,
{
    lemma_pow2_pos(n);
    if n == 0 {
        lemma2_to64();
    } else {
        let m = (n - 1) as nat;
        lemma_value_of_bits(v / 2, m);
        lemma_value_bits_len(v / 2, m);
        assert(value_bits(v, n).drop_last() =~= value_bits(v / 2, m));
        lemma_pow2_unfold(n);
        lemma_pow2_pos(m);
        lemma_mod_breakdown(v as int, 2, pow2(m) as int);
    }
}

/// A bit sequence is spelled by its own value.
pub proof fn lemma_bits_of_value(b: Seq<bool>)
    ensures
        value_bits(bits_value(b), b.len()) == b,
    decreases b.len(),
{
    if b.len() == 0 {
        assert(b =~= Seq::empty());
    } else {
        lemma_bits_of_value(b.drop_last());
        let v = bits_value(b);
        assert(v / 2 == bits_value(b.drop_last()));
        assert((v % 2 == 1) == b.last());
        assert(b =~= b.drop_last().push(b.last()));
    }
}

/// Writing a value in two parts: the high bits, then the low `n` bits.
pub proof fn lemma_value_bits_split(v: nat, m: nat, n: nat)
    ensures
        value_bits(v, m + n) == value_bits(v / pow2(n), m) + value_bits(v, n),
    decreases n,
{
    lemma_pow2_pos(n);
    if n == 0 {
        lemma2_to64();
        assert(v / 1 == v);
        assert(value_bits(v, m) + value_bits(v, 0) =~= value_bits(v, m));
    } else {
        let k = (n - 1) as nat;
        lemma_value_bits_split(v / 2, m, k);
        lemma_pow2_pos(k);
        lemma_pow2_unfold(n);
        lemma_div_denominator(v as int, 2, pow2(k) as int);
        assert(value_bits(v, m + n) == value_bits(v / 2, (m + n - 1) as nat).push(v % 2 == 1));
        assert((m + n - 1) as nat == m + k);
        assert(value_bits(v, m + n) =~= value_bits(v / pow2(n), m) + value_bits(v, n));
    }
}

/// Only the low `n` bits of a value matter.
pub proof fn lemma_value_bits_mod(v: nat, n: nat)
    ensures
        value_bits(v % pow2(n), n) == value_bits(v, n),
{
    lemma_value_of_bits(v, n);
    lemma_value_bits_len(v, n);
    lemma_bits_of_value(value_bits(v, n));
}

pub proof fn lemma_bits_value_concat(a: Seq<bool>, b: Seq<bool>)
    ensures
        bits_value(a + b) == bits_value(a) * pow2(b.len()) + bits_value(b),
    decreases b.len(),
{
    if b.len() == 0 {
        lemma2_to64();
        assert(a + b =~= a);
    } else {
        lemma_bits_value_concat(a, b.drop_last());
        assert((a + b).drop_last() =~= a + b.drop_last());
        lemma_pow2_unfold(b.len());
        let x = bits_value(a);
        let p = pow2((b.len() - 1) as nat);
        assert(2 * (x * p) == x * (2 * p)) by (nonlinear_arith);
    }
}

pub proof fn lemma_bits_of_push(data: Seq<u8>, b: u8)
    ensures
        bits_of(data.push(b)) == bits_of(data) + value_bits(b as nat, 8),
{
    assert(data.push(b).drop_last() =~= data);
}

pub proof fn lemma_bits_of_concat(a: Seq<u8>, b: Seq<u8>)
    ensures
        bits_of(a + b) == bits_of(a) + bits_of(b),
    decreases b.len(),
{
    if b.len() == 0 {
        assert(a + b =~= a);
        assert(bits_of(a) + bits_of(b) =~= bits_of(a));
    } else {
        lemma_bits_of_concat(a, b.drop_last());
        assert((a + b).drop_last() =~= a + b.drop_last());
        assert(bits_of(a + b) =~= bits_of(a) + bits_of(b));
    }
}

/// The bits of a part of a byte string are that part of its bits.
pub proof fn lemma_bits_of_subrange(data: Seq<u8>, i: int, j: int)
    requires
        0 <= i <= j <= data.len(),
    ensures
        bits_of(data).len() == 8 * data.len(),
        bits_of(data.subrange(i, j)) == bits_of(data).subrange(8 * i, 8 * j),
{
    let a = data.subrange(0, i);
    let b = data.subrange(i, j);
    let c = data.subrange(j, data.len() as int);
    assert(data =~= a + b + c);
    lemma_bits_of_concat(a + b, c);
    lemma_bits_of_concat(a, b);
    lemma_bits_of_len(a);
    lemma_bits_of_len(b);
    lemma_bits_of_len(c);
    lemma_bits_of_len(data);
    assert(bits_of(data).subrange(8 * i, 8 * j) =~= bits_of(b));
}

pub proof fn lemma_byte_bits(data: Seq<u8>, k: int)
    requires
        0 <= k < data.len(),
    ensures
        bits_of(data).len() == 8 * data.len(),
        bits_of(data).subrange(8 * k, 8 * k + 8) == value_bits(data[k] as nat, 8),
{
    lemma_bits_of_subrange(data, k, k + 1);
    assert(data.subrange(k, k + 1) =~= Seq::<u8>::empty().push(data[k]));
    lemma_bits_of_push(Seq::<u8>::empty(), data[k]);
    assert(bits_of(Seq::<u8>::empty()) + value_bits(data[k] as nat, 8) =~= value_bits(
        data[k] as nat,
        8,
    ));
}

/// A concatenation stands at a position where its parts stand one after the
/// other.
pub proof fn lemma_bits_at_concat(bits: Seq<bool>, pos: int, a: Seq<bool>, b: Seq<bool>)
    ensures
        bits_at(bits, pos, a + b) <==> bits_at(bits, pos, a) && bits_at(bits, pos + a.len(), b),
{
    if bits_at(bits, pos, a + b) {
        let s = bits.subrange(pos, pos + (a + b).len());
        assert(s =~= a + b);
        assert forall|i: int| 0 <= i < a.len() implies bits.subrange(pos, pos + a.len())[i]
            == a[i] by {
            assert(s[i] == (a + b)[i]);
        }
        assert forall|i: int| 0 <= i < b.len() implies bits.subrange(
            pos + a.len(),
            pos + a.len() + b.len(),
        )[i] == b[i] by {
            assert(s[a.len() + i] == (a + b)[a.len() + i]);
        }
        assert(bits.subrange(pos, pos + a.len()) =~= a);
    }
    if bits_at(bits, pos, a) && bits_at(bits, pos + a.len(), b) {
        let s = bits.subrange(pos, pos + (a + b).len());
        let sa = bits.subrange(pos, pos + a.len());
        let sb = bits.subrange(pos + a.len(), pos + a.len() + b.len());
        assert(sa =~= a && sb =~= b);
        assert forall|i: int| 0 <= i < s.len() implies s[i] == (a + b)[i] by {
            if i < a.len() {
                assert(s[i] == sa[i]);
            } else {
                assert(s[i] == sb[i - a.len()]);
            }
        }
        assert(s =~= a + b);
    }
}

/// What stands in the bits of a part of a byte string stands in the whole.
pub proof fn lemma_bits_at_shift(data: Seq<u8>, at: int, part: Seq<u8>, pos: int, w: Seq<bool>)
    requires
        0 <= at,
        at + part.len() <= data.len(),
        data.subrange(at, at + part.len()) =~= part,
        bits_at(bits_of(part), pos, w),
    ensures
        bits_at(bits_of(data), 8 * at + pos, w),
{
    lemma_bits_of_subrange(data, at, at + part.len());
    lemma_bits_of_len(part);
    let d = bits_of(data);
    assert(data.subrange(at, at + part.len()) == part);
    assert(bits_of(part) == d.subrange(8 * at, 8 * (at + part.len())));
    assert forall|i: int| 0 <= i < w.len() implies d.subrange(
        8 * at + pos,
        8 * at + pos + w.len(),
    )[i] == w[i] by {
        assert(bits_of(part).subrange(pos, pos + w.len())[i] == w[i]);
        assert(bits_of(part)[pos + i] == w[i]);
    }
}

pub proof fn lemma_zero_bits_value(n: nat)
    ensures
        bits_value(zero_bits(n)) == 0,
        value_bits(0, n) == zero_bits(n),
    decreases n,
{
    if n == 0 {
        assert(value_bits(0, 0) =~= zero_bits(0));
    } else {
        lemma_zero_bits_value((n - 1) as nat);
        assert(zero_bits(n).drop_last() =~= zero_bits((n - 1) as nat));
        assert(value_bits(0, n) =~= zero_bits(n));
    }
}

/// `x * 2^n`.
pub fn shl_u64(x: u64, n: u32) -> (r: u64)
    requires
        n < 64,
        x * pow2(n as nat) <= u64::MAX,
    ensures
        r == x * pow2(n as nat),
{
    proof {
        lemma_u64_shl_is_mul(x, n as u64);
    }
    x << (n as u64)
}

/// `x / 2^n`, rounded down.
pub fn shr_u64(x: u64, n: u32) -> (r: u64)
    requires
        n < 64,
    ensures
        r == x as nat / pow2(n as nat),
{
    proof {
        lemma_u64_shr_is_div(x, n as u64);
    }
    x >> (n as u64)
}

/// `x % 2^n`.
pub fn low_u64(x: u64, n: u32) -> (r: u64)
    requires
        n < 64,
    ensures
        r == x as nat % pow2(n as nat),
        r < pow2(n as nat),
{
    proof {
        lemma_pow2_pos(n as nat);
        lemma_u64_pow2_no_overflow(n as nat);
        lemma_u64_low_bits_mask_is_mod(x, n as nat);
        lemma_mod_bound(x as int, pow2(n as nat) as int);
        assert(1 * pow2(n as nat) == pow2(n as nat));
        lemma_u64_shl_is_mul(1, n as u64);
    }
    x & ((1u64 << (n as u64)) - 1)
}

} // verus!
