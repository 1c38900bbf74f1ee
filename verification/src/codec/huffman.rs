//! Canonical Huffman codes of at most 15 bits.
//!
//! A code is given by its lengths alone. In units of 2^-15 every symbol of
//! length `l` owns `2^(15 - l)` consecutive 15-bit words; the symbols take
//! their words in the order of their lengths, equal lengths in the order of
//! the symbols.

use crate::codec::bits::{
    bits_at, bits_value, lemma_bits_value_bound, lemma_bits_value_concat, lemma_value_bits_len,
    lemma_value_of_bits, shl_u64, shr_u64, value_bits,
};
use crate::codec::bitstream::{padded_bits, BitReader, BitWriter};
use crate::codec::error::CodecError;
use vstd::arithmetic::div_mod::*;
use vstd::arithmetic::mul::*;
use vstd::arithmetic::power2::*;
use vstd::prelude::*;

verus! {

/// All lengths are within the format's limit.
pub open spec fn lengths_ok(lengths: Seq<u8>) -> bool {
    forall|i: int| 0 <= i < lengths.len() ==> #[trigger] lengths[i] <= 15
}

/// How many 15-bit words a code of `len` bits owns.
pub open spec fn code_size(len: int) -> nat {
    pow2((15 - len) as nat)
}

/// Symbol `t` stands before the place `(l, s)` in canonical order.
pub open spec fn stands_before(lengths: Seq<u8>, t: int, l: int, s: int) -> bool {
    0 < lengths[t] && (lengths[t] < l || (lengths[t] == l && t < s))
}

/// How many words the symbols below `k` that stand before `(l, s)` own.
pub open spec fn words_before(lengths: Seq<u8>, l: int, s: int, k: nat) -> nat
    decreases k,
{
    if k == 0 {
        0
    } else {
        let t = k - 1;
        words_before(lengths, l, s, t as nat) + if stands_before(lengths, t, l, s) {
            code_size(lengths[t] as int)
        } else {
            0nat
        }
    }
}

/// How many words the symbols below `k` own together.
pub open spec fn words_owned(lengths: Seq<u8>, k: nat) -> nat
    decreases k,
{
    if k == 0 {
        0
    } else {
        words_owned(lengths, (k - 1) as nat) + if lengths[k - 1] > 0 {
            code_size(lengths[k - 1] as int)
        } else {
            0nat
        }
    }
}

/// The code fits: no two symbols need the same word.
pub open spec fn code_fits(lengths: Seq<u8>) -> bool {
    lengths_ok(lengths) && words_owned(lengths, lengths.len()) <= 0x8000
}

/// The first word that symbol `s` owns.
pub open spec fn code_start(lengths: Seq<u8>, s: int) -> nat {
    words_before(lengths, lengths[s] as int, s, lengths.len())
}

/// Symbol `s` owns the word `w`.
pub open spec fn owns(lengths: Seq<u8>, s: int, w: int) -> bool {
    &&& 0 <= s < lengths.len()
    &&& lengths[s] > 0
    &&& code_start(lengths, s) <= w < code_start(lengths, s) + code_size(lengths[s] as int)
}

/// The symbol that owns the word `w`.
pub open spec fn code_owner(lengths: Seq<u8>, w: int) -> Option<int> {
    if exists|s: int| owns(lengths, s, w) {
        Some(choose|s: int| owns(lengths, s, w))
    } else {
        None
    }
}

/// The bits that spell symbol `s`.
pub open spec fn code_bits(lengths: Seq<u8>, s: int) -> Seq<bool> {
    value_bits(code_start(lengths, s) / code_size(lengths[s] as int), lengths[s] as nat)
}

/// Outcome of reading one symbol at `pos`: the symbol and the next position.
pub open spec fn spec_decode_symbol(lengths: Seq<u8>, bits: Seq<bool>, pos: int) -> Result<
    (int, int),
    CodecError,
> {
    match code_owner(lengths, bits_value(padded_bits(bits, pos, 15)) as int) {
        None => Err(CodecError::InvalidCode),
        Some(s) => if pos + lengths[s] > bits.len() {
            Err(CodecError::UnexpectedEnd)
        } else {
            Ok((s, pos + lengths[s]))
        },
    }
}

proof fn lemma_words_step(lengths: Seq<u8>, l: int, s: int, k: nat)
    requires
        0 < l,
        0 <= s < lengths.len(),
        k <= lengths.len(),
    ensures
        words_before(lengths, l, s + 1, k) == words_before(lengths, l, s, k) + if k > s
            && lengths[s] == l {
            code_size(l)
        } else {
            0nat
        },
    decreases k,
{
    if k > 0 {
        lemma_words_step(lengths, l, s, (k - 1) as nat);
    }
}

proof fn lemma_words_next_length(lengths: Seq<u8>, l: int, k: nat)
    requires
        k <= lengths.len(),
    ensures
        words_before(lengths, l + 1, 0, k) == words_before(lengths, l, lengths.len() as int, k),
    decreases k,
{
    if k > 0 {
        lemma_words_next_length(lengths, l, (k - 1) as nat);
    }
}

proof fn lemma_words_first(lengths: Seq<u8>, k: nat)
    requires
        k <= lengths.len(),
    ensures
        words_before(lengths, 1, 0, k) == 0,
    decreases k,
{
    if k > 0 {
        lemma_words_first(lengths, (k - 1) as nat);
    }
}

proof fn lemma_words_bound(lengths: Seq<u8>, l: int, s: int, k: nat)
    requires
        k <= lengths.len(),
        lengths_ok(lengths),
    ensures
        words_before(lengths, l, s, k) <= words_owned(lengths, k) <= k * 0x8000,
    decreases k,
{
    if k > 0 {
        lemma_words_bound(lengths, l, s, (k - 1) as nat);
        lemma2_to64();
        let e = (15 - lengths[k - 1]) as nat;
        if e < 15 {
            lemma_pow2_strictly_increases(e, 15);
        }
        assert(k * 0x8000 == (k - 1) * 0x8000 + 0x8000);
    }
}

proof fn lemma_words_ordered(lengths: Seq<u8>, s: int, t: int, k: nat)
    requires
        0 <= s < lengths.len(),
        0 <= t < lengths.len(),
        k <= lengths.len(),
        lengths[t] > 0,
        stands_before(lengths, s, lengths[t] as int, t),
    ensures
        words_before(lengths, lengths[s] as int, s, k) + if k > s {
            code_size(lengths[s] as int)
        } else {
            0nat
        } <= words_before(lengths, lengths[t] as int, t, k),
    decreases k,
{
    if k > 0 {
        lemma_words_ordered(lengths, s, t, (k - 1) as nat);
    }
}

/// No word has two owners.
pub proof fn lemma_owner_unique(lengths: Seq<u8>, s: int, t: int, w: int)
    requires
        owns(lengths, s, w),
        owns(lengths, t, w),
    ensures
        s == t,
{
    if s != t {
        if stands_before(lengths, s, lengths[t] as int, t) {
            lemma_words_ordered(lengths, s, t, lengths.len());
        } else {
            lemma_words_ordered(lengths, t, s, lengths.len());
        }
    }
}

proof fn lemma_words_multiple(lengths: Seq<u8>, l: int, s: int, k: nat)
    requires
        k <= lengths.len(),
        1 <= l <= 15,
    ensures
        words_before(lengths, l, s, k) % code_size(l) == 0,
    decreases k,
{
    let d = code_size(l) as int;
    lemma_pow2_pos((15 - l) as nat);
    if k == 0 {
        lemma_small_mod(0, code_size(l));
    } else {
        lemma_words_multiple(lengths, l, s, (k - 1) as nat);
        let t = k - 1;
        if stands_before(lengths, t, l, s) {
            let e = (l - lengths[t]) as nat;
            lemma_pow2_adds(e, (15 - l) as nat);
            assert(code_size(lengths[t] as int) == pow2(e) * pow2((15 - l) as nat));
            lemma_mod_multiples_basic(pow2(e) as int, d);
            lemma_mod_adds(
                words_before(lengths, l, s, t as nat) as int,
                code_size(lengths[t] as int) as int,
                d,
            );
        }
    }
}

/// The words of a symbol start at a multiple of their number.
proof fn lemma_code_aligned(lengths: Seq<u8>, s: int)
    requires
        0 <= s < lengths.len(),
        1 <= lengths[s] <= 15,
    ensures
        code_start(lengths, s) == (code_start(lengths, s) / code_size(lengths[s] as int))
            * code_size(lengths[s] as int),
{
    let l = lengths[s] as int;
    lemma_words_multiple(lengths, l, s, lengths.len());
    lemma_pow2_pos((15 - l) as nat);
    let d = code_size(l) as int;
    let x = code_start(lengths, s) as int;
    lemma_fundamental_div_mod(x, d);
    lemma_mul_is_commutative(x / d, d);
}

proof fn lemma_start_within(lengths: Seq<u8>, s: int, k: nat)
    requires
        0 <= s < lengths.len(),
        lengths[s] > 0,
        k <= lengths.len(),
    ensures
        words_before(lengths, lengths[s] as int, s, k) + if k > s {
            code_size(lengths[s] as int)
        } else {
            0nat
        } <= words_owned(lengths, k),
    decreases k,
{
    if k > 0 {
        lemma_start_within(lengths, s, (k - 1) as nat);
    }
}

/// In a code that fits, the bits of a symbol, followed by anything, read back
/// as that symbol.
pub proof fn lemma_decode_code(lengths: Seq<u8>, s: int, bits: Seq<bool>, pos: int)
    requires
        code_fits(lengths),
        0 <= s < lengths.len(),
        lengths[s] > 0,
        bits_at(bits, pos, code_bits(lengths, s)),
    ensures
        code_bits(lengths, s).len() == lengths[s],
        spec_decode_symbol(lengths, bits, pos) == Ok::<(int, int), CodecError>(
            (s, pos + lengths[s]),
        ),
{
    let l = lengths[s] as nat;
    let d = code_size(l as int);
    let r = (15 - l) as nat;
    let c = code_start(lengths, s) / d;
    let code = code_bits(lengths, s);
    lemma_value_bits_len(c, l);
    let w = padded_bits(bits, pos, 15);
    let hi = w.subrange(0, l as int);
    let lo = w.subrange(l as int, 15);
    assert(w =~= hi + lo);
    assert forall|i: int| 0 <= i < l implies hi[i] == code[i] by {
        assert(bits.subrange(pos, pos + l)[i] == code[i]);
    }
    assert(hi =~= code);
    lemma_bits_value_concat(hi, lo);
    lemma_bits_value_bound(lo);
    lemma_value_of_bits(c, l);
    lemma_code_aligned(lengths, s);
    lemma_start_within(lengths, s, lengths.len());
    lemma_pow2_pos(r);
    lemma_pow2_adds(l, r);
    lemma2_to64();
    assert(c < pow2(l)) by (nonlinear_arith)
        requires
            c * d + d <= pow2(l) * d,
            d > 0,
    ;
    lemma_small_mod(c, pow2(l));
    assert(owns(lengths, s, bits_value(w) as int));
    let o = choose|t: int| owns(lengths, t, bits_value(w) as int);
    lemma_owner_unique(lengths, s, o, bits_value(w) as int);
}

/// The decoding side of a code: which symbol owns each word.
pub struct DecodeTable {
    pub lengths: Vec<u8>,
    pub owners: Vec<u16>,
    pub num_symbols: usize,
}

impl View for DecodeTable {
    type V = Seq<u8>;

    /// The code's lengths.
    open spec fn view(&self) -> Seq<u8> {
        self.lengths@
    }
}

impl DecodeTable {
    pub open spec fn wf(&self) -> bool {
        &&& lengths_ok(self.lengths@)
        &&& self.num_symbols == self.lengths@.len()
        &&& self.lengths@.len() < 0xFFFF
        &&& self.owners@.len() == 0x8000
        &&& forall|w: int|
            0 <= w < 0x8000 ==> {
                if #[trigger] self.owners@[w] == 0xFFFF {
                    forall|s: int| !owns(self.lengths@, s, w)
                } else {
                    owns(self.lengths@, self.owners@[w] as int, w)
                }
            }
    }

    /// Build the table of the code with the given lengths.
    pub fn new(lengths: &[u8]) -> (t: DecodeTable)
        requires
            lengths_ok(lengths@),
            lengths@.len() < 0xFFFF,
        ensures
            t.wf(),
            t@ == lengths@,
            t.num_symbols == lengths@.len(),
    {
        let n: usize = lengths.len();
        let ghost ls = lengths@;
        let mut owners: Vec<u16> = vec![0xFFFFu16; 0x8000];
        let mut next: u64 = 0;
        let mut l: u8 = 1;
        proof {
            lemma_words_first(ls, n as nat);
        }
        while l <= 15
            invariant
                1 <= l <= 16,
                ls == lengths@,
                lengths_ok(ls),
                n == ls.len(),
                n < 0xFFFF,
                owners@.len() == 0x8000,
                next == words_before(ls, l as int, 0, n as nat),
                forall|w: int|
                    0 <= w < 0x8000 ==> {
                        if #[trigger] owners@[w] == 0xFFFF {
                            forall|s: int| #[trigger] owns(ls, s, w) ==> ls[s] >= l
                        } else {
                            owns(ls, owners@[w] as int, w)
                        }
                    },
            decreases 16 - l,
        {
            let size: u64 = shl1(15 - l as u32);
            let mut s: usize = 0;
            while s < n
                invariant
                    1 <= l <= 15,
                    ls == lengths@,
                    n == ls.len(),
                    n < 0xFFFF,
                    lengths_ok(ls),
                    s <= n,
                    size == code_size(l as int),
                    size <= 0x8000,
                    owners@.len() == 0x8000,
                    next == words_before(ls, l as int, s as int, n as nat),
                    forall|w: int|
                        0 <= w < 0x8000 ==> {
                            if #[trigger] owners@[w] == 0xFFFF {
                                forall|t: int|
                                    #[trigger] owns(ls, t, w) ==> ls[t] > l || (ls[t] == l && t
                                        >= s)
                            } else {
                                owns(ls, owners@[w] as int, w)
                            }
                        },
                decreases n - s,
            {
                proof {
                    lemma_words_step(ls, l as int, s as int, n as nat);
                    lemma_words_bound(ls, l as int, s as int, n as nat);
                }
                if lengths[s] == l {
                    let ghost before = owners@;
                    let stop: u64 = next + size;
                    let mut w: u64 = next;
                    while w < stop && w < 0x8000
                        invariant
                            next <= w <= stop,
                            s < n < 0xFFFF,
                            owners@.len() == 0x8000,
                            before.len() == 0x8000,
                            forall|v: int|
                                0 <= v < 0x8000 ==> #[trigger] owners@[v] == if next <= v < w {
                                    s as u16
                                } else {
                                    before[v]
                                },
                        decreases stop - w,
                    {
                        owners.set(w as usize, s as u16);
                        w = w + 1;
                    }
                    assert(code_start(ls, s as int) == next);
                    next = stop;
                }
                s = s + 1;
            }
            proof {
                lemma_words_next_length(ls, l as int, n as nat);
            }
            l = l + 1;
        }
        let owned = vstd::slice::slice_to_vec(lengths);
        let t = DecodeTable { lengths: owned, owners, num_symbols: n };
        assert(t.wf());
        t
    }
}

/// `2^n`, for the sizes of codes.
fn shl1(n: u32) -> (r: u64)
    requires
        n <= 15,
    ensures
        r == pow2(n as nat),
        0 < r <= 0x8000,
{
    proof {
        lemma2_to64();
        lemma_pow2_pos(n as nat);
        if n < 15 {
            lemma_pow2_strictly_increases(n as nat, 15);
        }
        assert(1 * pow2(n as nat) == pow2(n as nat));
    }
    shl_u64(1, n)
}

/// Read one symbol.
pub fn decode_symbol(table: &DecodeTable, reader: &mut BitReader<'_>) -> (r: Result<
    usize,
    CodecError,
>)
    requires
        table.wf(),
        old(reader).wf(),
    ensures
        final(reader).wf(),
        final(reader).bytes() == old(reader).bytes(),
        match spec_decode_symbol(table@, old(reader).bits(), old(reader).pos()) {
            Ok(v) => r == Ok::<usize, CodecError>(v.0 as usize) && 0 <= v.0 < table@.len()
                && final(reader).pos() == v.1 && v.1 > old(reader).pos(),
            Err(e) => r == Err::<usize, CodecError>(e) && final(reader).pos() == old(
                reader,
            ).pos(),
        },
{
    let w: u32 = reader.peek15();
    let owner: u16 = table.owners[w as usize];
    if owner == 0xFFFF {
        return Err(CodecError::InvalidCode);
    }
    proof {
        let o = choose|t: int| owns(table@, t, w as int);
        lemma_owner_unique(table@, owner as int, o, w as int);
    }
    let len: u8 = table.lengths[owner as usize];
    if !reader.has_bits(len) {
        return Err(CodecError::UnexpectedEnd);
    }
    reader.skip(len);
    Ok(owner as usize)
}

/// The encoding side of a code: the number each symbol is spelled by.
pub struct EncodeTable {
    lengths: Vec<u8>,
    codes: Vec<u32>,
}

impl View for EncodeTable {
    type V = Seq<u8>;

    /// The code's lengths.
    closed spec fn view(&self) -> Seq<u8> {
        self.lengths@
    }
}

impl EncodeTable {
    pub closed spec fn wf(&self) -> bool {
        &&& lengths_ok(self.lengths@)
        &&& self.codes@.len() == self.lengths@.len()
        &&& forall|s: int|
            0 <= s < self.lengths@.len() && self.lengths@[s] > 0 ==> #[trigger] self.codes@[s]
                == code_start(self.lengths@, s) / code_size(self.lengths@[s] as int)
    }

    /// Build the table of the code with the given lengths.
    pub fn new(lengths: &[u8]) -> (t: EncodeTable)
        requires
            lengths_ok(lengths@),
            lengths@.len() < 0xFFFF,
        ensures
            t.wf(),
            t@ == lengths@,
    {
        let n: usize = lengths.len();
        let ghost ls = lengths@;
        let mut codes: Vec<u32> = vec![0u32; n];
        let mut next: u64 = 0;
        let mut l: u8 = 1;
        proof {
            lemma_words_first(ls, n as nat);
        }
        while l <= 15
            invariant
                1 <= l <= 16,
                ls == lengths@,
                n == ls.len(),
                n < 0xFFFF,
                lengths_ok(ls),
                codes@.len() == n,
                next == words_before(ls, l as int, 0, n as nat),
                forall|t: int|
                    0 <= t < n && 0 < ls[t] < l ==> #[trigger] codes@[t] == code_start(ls, t)
                        / code_size(ls[t] as int),
            decreases 16 - l,
        {
            let size: u64 = shl1(15 - l as u32);
            let mut s: usize = 0;
            while s < n
                invariant
                    1 <= l <= 15,
                    ls == lengths@,
                    n == ls.len(),
                    n < 0xFFFF,
                    lengths_ok(ls),
                    s <= n,
                    size == code_size(l as int),
                    size <= 0x8000,
                    codes@.len() == n,
                    next == words_before(ls, l as int, s as int, n as nat),
                    forall|t: int|
                        0 <= t < n && 0 < ls[t] && (ls[t] < l || (ls[t] == l && t < s))
                            ==> #[trigger] codes@[t] == code_start(ls, t) / code_size(
                            ls[t] as int,
                        ),
                decreases n - s,
            {
                proof {
                    lemma_words_step(ls, l as int, s as int, n as nat);
                    lemma_words_bound(ls, l as int, s as int, n as nat);
                }
                if lengths[s] == l {
                    let code: u64 = shr_u64(next, 15 - l as u32);
                    proof {
                        lemma_pow2_pos((15 - l) as nat);
                        lemma_div_nonincreasing(next as int, code_size(l as int) as int);
                    }
                    codes.set(s, code as u32);
                    next = next + size;
                }
                s = s + 1;
            }
            proof {
                lemma_words_next_length(ls, l as int, n as nat);
            }
            l = l + 1;
        }
        let owned = vstd::slice::slice_to_vec(lengths);
        EncodeTable { lengths: owned, codes }
    }
}

/// Write the bits of one symbol.
pub fn encode_symbol(table: &EncodeTable, writer: &mut BitWriter, sym: usize)
    requires
        table.wf(),
        old(writer).wf(),
        sym < table@.len(),
        old(writer)@.len() + 15 < 0x1000_0000_0000_0000,
    ensures
        final(writer).wf(),
        final(writer)@ == old(writer)@ + code_bits(table@, sym as int),
        code_bits(table@, sym as int).len() == table@[sym as int],
        table@[sym as int] <= 15,
{
    proof {
        lemma_value_bits_len(
            code_start(table@, sym as int) / code_size(table@[sym as int] as int),
            table@[sym as int] as nat,
        );
    }
    let len: u8 = table.lengths[sym];
    let code: u32 = table.codes[sym];
    writer.write_bits(code, len);
}

proof fn lemma_words_owned_update(lengths: Seq<u8>, i: int, v: u8, k: nat)
    requires
        0 <= i < lengths.len(),
        k <= lengths.len(),
        lengths[i] > 0,
        v > 0,
    ensures
        words_owned(lengths.update(i, v), k) + if k > i {
            code_size(lengths[i] as int)
        } else {
            0nat
        } == words_owned(lengths, k) + if k > i {
            code_size(v as int)
        } else {
            0nat
        },
    decreases k,
{
    if k > 0 {
        lemma_words_owned_update(lengths, i, v, (k - 1) as nat);
    }
}

proof fn lemma_words_owned_uniform(lengths: Seq<u8>, max: int, k: nat)
    requires
        k <= lengths.len(),
        1 <= max <= 15,
        forall|i: int| 0 <= i < lengths.len() && lengths[i] > 0 ==> #[trigger] lengths[i] == max,
    ensures
        words_owned(lengths, k) <= k * code_size(max),
    decreases k,
{
    if k > 0 {
        lemma_words_owned_uniform(lengths, max, (k - 1) as nat);
        assert(k * code_size(max) == (k - 1) * code_size(max) + code_size(max)) by (nonlinear_arith);
    }
}

/// The sum of `v` over positions.
spec fn sum_at(v: spec_fn(int) -> int, at: Seq<int>) -> int
    decreases at.len(),
{
    if at.len() == 0 {
        0
    } else {
        sum_at(v, at.drop_last()) + v(at.last())
    }
}

/// The sum of `v` from `lo` to `hi`.
spec fn sum_range(v: spec_fn(int) -> int, lo: int, hi: int) -> int
    decreases hi - lo,
{
    if hi <= lo {
        0
    } else {
        sum_range(v, lo, hi - 1) + v(hi - 1)
    }
}

/// `taken` takes the leaves before `leaf` and the inner nodes from `m` to
/// `inner`, each kind in order.
spec fn interleaves(taken: Seq<int>, leaf: int, m: int, inner: int) -> bool
    decreases taken.len(),
{
    if taken.len() == 0 {
        leaf == 0 && inner == m
    } else {
        let rest = taken.drop_last();
        ||| taken.last() == leaf - 1 && leaf > 0 && interleaves(rest, leaf - 1, m, inner)
        ||| taken.last() == inner - 1 && inner > m && interleaves(rest, leaf, m, inner - 1)
    }
}

proof fn lemma_interleaved_sum(
    v: spec_fn(int) -> int,
    taken: Seq<int>,
    leaf: int,
    m: int,
    inner: int,
)
    requires
        interleaves(taken, leaf, m, inner),
    ensures
        sum_at(v, taken) == sum_range(v, 0, leaf) + sum_range(v, m, inner),
    decreases taken.len(),
{
    if taken.len() > 0 {
        let rest = taken.drop_last();
        if taken.last() == leaf - 1 && leaf > 0 && interleaves(rest, leaf - 1, m, inner) {
            lemma_interleaved_sum(v, rest, leaf - 1, m, inner);
        } else {
            lemma_interleaved_sum(v, rest, leaf, m, inner - 1);
        }
    }
}

/// Every inner node is worth what its two children are: so all leaves are
/// worth what the root is.
proof fn lemma_leaves_worth_root(v: spec_fn(int) -> int, taken: Seq<int>, m: int, k: int)
    requires
        m >= 2,
        0 <= k <= m - 1,
        taken.len() == 2 * (m - 1),
        forall|p: int|
            0 <= p < m - 1 ==> v(m + p) == v(#[trigger] taken[2 * p]) + v(taken[2 * p + 1]),
    ensures
        sum_at(v, taken.subrange(0, 2 * k)) == sum_range(v, m, m + k),
    decreases k,
{
    if k > 0 {
        lemma_leaves_worth_root(v, taken, m, k - 1);
        let a = taken.subrange(0, 2 * k);
        let b = a.drop_last();
        assert(b.drop_last() =~= taken.subrange(0, 2 * (k - 1)));
        assert(a.last() == taken[2 * (k - 1) + 1]);
        assert(b.last() == taken[2 * (k - 1)]);
        assert(v(m + (k - 1)) == v(taken[2 * (k - 1)]) + v(taken[2 * (k - 1) + 1]));
        assert(sum_at(v, a) == sum_at(v, b) + v(a.last()));
        assert(sum_at(v, b) == sum_at(v, b.drop_last()) + v(b.last()));
        assert(sum_range(v, m, m + k) == sum_range(v, m, m + k - 1) + v(m + k - 1));
    } else {
        assert(taken.subrange(0, 0) =~= Seq::<int>::empty());
    }
}

proof fn lemma_sum_insert(v: spec_fn(int) -> int, at: Seq<int>, k: int, x: int)
    requires
        0 <= k <= at.len(),
    ensures
        sum_at(v, at.insert(k, x)) == sum_at(v, at) + v(x),
    decreases at.len(),
{
    let more = at.insert(k, x);
    if k == at.len() {
        assert(more.drop_last() =~= at);
    } else {
        lemma_sum_insert(v, at.drop_last(), k, x);
        assert(more.drop_last() =~= at.drop_last().insert(k, x));
        assert(more.last() == at.last());
    }
}

/// What a position that occurs is worth, by its code's length.
spec fn worth(freqs: Seq<u32>, lengths: Seq<u8>) -> spec_fn(int) -> int {
    |i: int|
        if freqs[i] > 0 {
            code_size(lengths[i] as int) as int
        } else {
            0
        }
}

/// Some symbol that occurs, and another.
pub open spec fn two_occur(freqs: Seq<u32>) -> bool {
    exists|i: int, j: int|
        0 <= i < j < freqs.len() && #[trigger] freqs[i] > 0 && #[trigger] freqs[j] > 0
}

/// What occurs more often has no longer a code.
pub open spec fn shorter_for_frequent(freqs: Seq<u32>, lengths: Seq<u8>) -> bool {
    forall|i: int, j: int|
        #![trigger freqs[i], freqs[j]]
        0 <= i < freqs.len() && 0 <= j < freqs.len() && freqs[i] > freqs[j] && freqs[j] > 0
            ==> lengths[i] <= lengths[j]
}

/// The positions that occur, each once, those that occur less often first.
spec fn ordered(freqs: Seq<u32>, order: Seq<usize>, n: int) -> bool {
    &&& forall|a: int|
        0 <= a < order.len() ==> (#[trigger] order[a]) < n && freqs[order[a] as int] > 0
    &&& forall|a: int, b: int|
        0 <= a < b < order.len() ==> freqs[#[trigger] order[a] as int]
            <= freqs[#[trigger] order[b] as int] && order[a] != order[b]
    &&& forall|i: int| 0 <= i < n && #[trigger] freqs[i] > 0 ==> order.contains(i as usize)
}

spec fn wide_order(order: Seq<usize>) -> Seq<int> {
    order.map_values(|x: usize| x as int)
}

/// The positions below `n` that occur, put in one after the other.
spec fn built(freqs: Seq<u32>, order: Seq<int>, n: int) -> bool
    decreases n,
{
    if n <= 0 {
        order.len() == 0
    } else if freqs[n - 1] > 0 {
        exists|prev: Seq<int>, k: int| #[trigger]
            put_in(order, prev, k, n - 1) && built(freqs, prev, n - 1)
    } else {
        built(freqs, order, n - 1)
    }
}

spec fn put_in(order: Seq<int>, prev: Seq<int>, k: int, x: int) -> bool {
    0 <= k <= prev.len() && order == prev.insert(k, x)
}

proof fn lemma_built_sum(freqs: Seq<u32>, order: Seq<int>, n: int, v: spec_fn(int) -> int)
    requires
        0 <= n <= freqs.len(),
        built(freqs, order, n),
        forall|i: int| 0 <= i < freqs.len() && freqs[i] == 0 ==> #[trigger] v(i) == 0,
    ensures
        sum_at(v, order) == sum_range(v, 0, n),
    decreases n,
{
    if n > 0 {
        if freqs[n - 1] > 0 {
            let (prev, k) = choose|prev: Seq<int>, k: int| #[trigger]
                put_in(order, prev, k, n - 1) && built(freqs, prev, n - 1);
            lemma_built_sum(freqs, prev, n - 1, v);
            lemma_sum_insert(v, prev, k, n - 1);
        } else {
            lemma_built_sum(freqs, order, n - 1, v);
            assert(v(n - 1) == 0);
        }
    }
}

/// One more position is put in where it belongs.
proof fn lemma_put_in(freqs: Seq<u32>, before: Seq<usize>, order: Seq<usize>, k: int, i: usize)
    requires
        i < freqs.len(),
        freqs[i as int] > 0,
        ordered(freqs, before, i as int),
        0 <= k <= before.len(),
        order == before.insert(k, i),
        k > 0 ==> freqs[before[k - 1] as int] <= freqs[i as int],
        forall|a: int|
            k <= a < before.len() ==> freqs[#[trigger] before[a] as int] > freqs[i as int],
    ensures
        ordered(freqs, order, i + 1),
{
    assert forall|a: int| 0 <= a < order.len() implies (#[trigger] order[a]) < i + 1
        && freqs[order[a] as int] > 0 by {
        if a < k {
            assert(order[a] == before[a]);
        } else if a > k {
            assert(order[a] == before[a - 1]);
        }
    }
    assert forall|a: int, b: int| 0 <= a < b < order.len() implies freqs[
    #[trigger] order[a] as int] <= freqs[#[trigger] order[b] as int] && order[a] != order[b] by {
        if a == k {
            assert(order[b] == before[b - 1]);
            assert(before[b - 1] < i);
        } else if b == k {
            assert(order[a] == before[a]);
            assert(before[a] < i);
            if a < k - 1 {
                assert(freqs[before[a] as int] <= freqs[before[k - 1] as int]);
            }
        } else {
            let ga = if a < k {
                a
            } else {
                a - 1
            };
            let gb = if b < k {
                b
            } else {
                b - 1
            };
            assert(order[a] == before[ga]);
            assert(order[b] == before[gb]);
        }
    }
    assert forall|x: int| 0 <= x < i + 1 && #[trigger] freqs[x] > 0 implies order.contains(
        x as usize,
    ) by {
        if x == i {
            assert(order[k] == i);
        } else {
            assert(before.contains(x as usize));
            let a = choose|a: int| 0 <= a < before.len() && before[a] == x as usize;
            if a < k {
                assert(order[a] == x as usize);
            } else {
                assert(order[a + 1] == x as usize);
            }
        }
    }
}

/// The positions that occur, those that occur less often first.
fn sorted_order(freqs: &[u32]) -> (order: Vec<usize>)
    requires
        freqs@.len() < 0xFFFF,
    ensures
        order@.len() <= freqs@.len(),
        ordered(freqs@, order@, freqs@.len() as int),
        built(freqs@, wide_order(order@), freqs@.len() as int),
{
    let n: usize = freqs.len();
    let mut order: Vec<usize> = Vec::new();
    let mut i: usize = 0;
    assert(wide_order(order@) =~= Seq::<int>::empty());
    while i < n
        invariant
            i <= n,
            n == freqs@.len(),
            order@.len() <= i,
            ordered(freqs@, order@, i as int),
            built(freqs@, wide_order(order@), i as int),
        decreases n - i,
    {
        let ghost before = order@;
        if freqs[i] > 0 {
            let mut at: usize = order.len();
            while at > 0 && freqs[order[at - 1]] > freqs[i]
                invariant
                    i < n,
                    n == freqs@.len(),
                    at <= order@.len(),
                    order@ == before,
                    ordered(freqs@, order@, i as int),
                    forall|a: int|
                        at <= a < order@.len() ==> freqs@[#[trigger] order@[a] as int]
                            > freqs@[i as int],
                decreases at,
            {
                assert(order@[at - 1] < i);
                at = at - 1;
            }
            order.insert(at, i);
            proof {
                lemma_put_in(freqs@, before, order@, at as int, i);
                assert(wide_order(order@) =~= wide_order(before).insert(at as int, i as int));
                assert(put_in(wide_order(order@), wide_order(before), at as int, i as int));
            }
        }
        i = i + 1;
    }
    order
}

/// A tree over `m` leaves: each node's parent comes behind it, and every inner
/// node has two children.
spec fn is_tree(parent: Seq<usize>, taken: Seq<int>, m: int) -> bool {
    let nodes = 2 * m - 1;
    &&& parent.len() == nodes
    &&& taken.len() == nodes - 1
    &&& interleaves(taken, m, m, nodes - 1)
    &&& forall|k: int|
        0 <= k < nodes - 1 ==> 0 <= #[trigger] taken[k] < nodes - 1 && parent[taken[k]] == m + k / 2
    &&& forall|a: int|
        0 <= a < nodes - 1 ==> a < #[trigger] parent[a] < nodes && m <= parent[a]
    &&& forall|a: int, b: int|
        #![trigger parent[a], parent[b]]
        0 <= a < b < m ==> parent[a] <= parent[b]
    &&& forall|a: int, b: int|
        #![trigger parent[a], parent[b]]
        m <= a < b < nodes - 1 ==> parent[a] <= parent[b]
}

/// Build a Huffman tree over weights in order: leaves leave their queue in
/// order, and so do the inner nodes, which are made in order of weight.
#[verifier::rlimit(60)]
#[verifier::spinoff_prover]
fn build_tree(leaves: &Vec<u64>) -> (r: (Vec<usize>, Ghost<Seq<int>>))
    requires
        2 <= leaves@.len() < 0xFFFF,
    ensures
        is_tree(r.0@, r.1@, leaves@.len() as int),
{
    let m: usize = leaves.len();
    let nodes: usize = 2 * m - 1;
    let mut weight: Vec<u64> = leaves.clone();
    let mut parent: Vec<usize> = vec![0usize; nodes];
    let ghost mut taken: Seq<int> = Seq::empty();
    let mut leaf: usize = 0;
    let mut inner: usize = m;
    let mut next: usize = m;
    assert(weight@.len() == m);
    while next < nodes
        invariant
            m >= 2,
            nodes == 2 * m - 1,
            nodes < 0x2_0000,
            m <= next <= nodes,
            m <= inner <= next,
            next > m ==> inner < next,
            leaf <= m,
            taken.len() == 2 * (next - m),
            leaf + (inner - m) == 2 * (next - m),
            weight@.len() == next,
            parent@.len() == nodes,
            interleaves(taken, leaf as int, m as int, inner as int),
            forall|k: int|
                0 <= k < taken.len() ==> 0 <= #[trigger] taken[k] < next && parent@[taken[k]] == m
                    + k / 2,
            forall|k: int|
                0 <= k < taken.len() ==> (#[trigger] taken[k]) < leaf || m <= taken[k] < inner,
            forall|a: int|
                0 <= a < leaf || m <= a < inner ==> a < #[trigger] parent@[a] < next && m
                    <= parent@[a],
            forall|a: int, b: int|
                #![trigger parent@[a], parent@[b]]
                0 <= a < b < leaf ==> parent@[a] <= parent@[b],
            forall|a: int, b: int|
                #![trigger parent@[a], parent@[b]]
                m <= a < b < inner ==> parent@[a] <= parent@[b],
        decreases nodes - next,
    {
        let mut sum: u64 = 0;
        let mut count: u8 = 0;
        while count < 2
            invariant
                count <= 2,
                m >= 2,
                nodes == 2 * m - 1,
                nodes < 0x2_0000,
                m <= next < nodes,
                m <= inner <= next,
                leaf <= m,
                taken.len() == 2 * (next - m) + count,
                leaf + (inner - m) == 2 * (next - m) + count,
                weight@.len() == next,
                parent@.len() == nodes,
                interleaves(taken, leaf as int, m as int, inner as int),
                forall|k: int|
                    0 <= k < taken.len() ==> 0 <= #[trigger] taken[k] < next && parent@[taken[k]]
                        == m + k / 2,
                forall|k: int|
                    0 <= k < taken.len() ==> (#[trigger] taken[k]) < leaf || m <= taken[k] < inner,
                forall|a: int|
                    0 <= a < leaf || m <= a < inner ==> a < #[trigger] parent@[a] <= next && m
                        <= parent@[a],
                forall|a: int, b: int|
                    #![trigger parent@[a], parent@[b]]
                    0 <= a < b < leaf ==> parent@[a] <= parent@[b],
                forall|a: int, b: int|
                    #![trigger parent@[a], parent@[b]]
                    m <= a < b < inner ==> parent@[a] <= parent@[b],
            decreases 2 - count,
        {
            let use_leaf: bool = leaf < m && (inner >= next || weight[leaf] <= weight[inner]);
            let child: usize = if use_leaf { leaf } else { inner };
            let ghost had = taken;
            let ghost was = parent@;
            if use_leaf {
                leaf = leaf + 1;
            } else {
                inner = inner + 1;
            }
            sum = sum.saturating_add(weight[child]);
            parent.set(child, next);
            proof {
                taken = had.push(child as int);
                assert(taken.drop_last() =~= had);
                assert forall|k: int| 0 <= k < taken.len() implies 0 <= #[trigger] taken[k] < next
                    && parent@[taken[k]] == m + k / 2 by {
                    if k < had.len() {
                        assert(taken[k] == had[k]);
                        assert(had[k] != child);
                    }
                }
            }
            count = count + 1;
        }
        weight.push(sum);
        next = next + 1;
    }
    (parent, Ghost(taken))
}

/// What a node at a depth is worth, as far as depths go.
spec fn depth_worth(depth: Seq<u8>) -> spec_fn(int) -> int {
    |t: int| code_size(depth[t] as int) as int
}

/// The depths of the leaves: no deeper for what comes later, and worth all
/// code words where none is deeper than they can be.
#[verifier::rlimit(60)]
#[verifier::spinoff_prover]
fn leaf_depths(parent: &Vec<usize>, m: usize, Ghost(taken): Ghost<Seq<int>>) -> (depth: Vec<u8>)
    requires
        2 <= m < 0xFFFF,
        is_tree(parent@, taken, m as int),
    ensures
        depth@.len() == 2 * m - 1,
        forall|a: int| 0 <= a < m ==> #[trigger] depth@[a] >= 1,
        forall|a: int, b: int| 0 <= a < b < m ==> #[trigger] depth@[a] >= #[trigger] depth@[b],
        (forall|a: int| 0 <= a < m ==> #[trigger] depth@[a] <= 15) ==> sum_range(
            depth_worth(depth@),
            0,
            m as int,
        ) == 0x8000,
{
    let nodes: usize = 2 * m - 1;
    let mut depth: Vec<u8> = vec![0u8; nodes];
    let mut d: usize = nodes - 1;
    while d > 0
        invariant
            2 <= m < 0xFFFF,
            nodes == 2 * m - 1,
            d < nodes,
            depth@.len() == nodes,
            is_tree(parent@, taken, m as int),
            depth@[nodes - 1] == 0,
            forall|a: int|
                d <= a < nodes - 1 ==> #[trigger] depth@[a] == deeper(depth@[parent@[a] as int]),
            forall|a: int, b: int|
                d <= a < b < nodes && (b < m || m <= a) ==> #[trigger] depth@[a]
                    >= #[trigger] depth@[b],
        decreases d,
    {
        d = d - 1;
        let ghost before = depth@;
        let p: usize = parent[d];
        assert(d < parent@[d as int] < nodes);
        let here: u8 = depth[p].saturating_add(1);
        depth.set(d, here);
        proof {
            assert(here == deeper(before[p as int]));
            assert forall|a: int| d <= a < nodes - 1 implies #[trigger] depth@[a] == deeper(
                depth@[parent@[a] as int],
            ) by {
                assert(a < parent@[a] < nodes);
            }
            assert forall|a: int, b: int|
                d <= a < b < nodes && (b < m || m <= a) implies #[trigger] depth@[a]
                >= #[trigger] depth@[b] by {
                if a == d {
                    if b < nodes - 1 {
                        assert(parent@[a] <= parent@[b]);
                        assert(m <= parent@[a] && parent@[b] < nodes);
                        assert(depth@[b] == before[b]);
                        assert(before[b] == deeper(before[parent@[b] as int]));
                        if parent@[a] < parent@[b] {
                            assert(before[parent@[a] as int] >= before[parent@[b] as int]);
                        }
                    }
                } else {
                    assert(depth@[a] == before[a] && depth@[b] == before[b]);
                }
            }
        }
    }
    proof {
        assert forall|a: int| 0 <= a < m implies #[trigger] depth@[a] >= 1 by {
            assert(depth@[a] == deeper(depth@[parent@[a] as int]));
        }
        if forall|a: int| 0 <= a < m ==> #[trigger] depth@[a] <= 15 {
            lemma_complete(parent@, taken, depth@, m as int);
        }
    }
    depth
}

/// One deeper, as far as depths go.
spec fn deeper(d: u8) -> u8 {
    if d < 255 {
        (d + 1) as u8
    } else {
        255
    }
}

/// The leaves of a tree own all code words.
proof fn lemma_complete(parent: Seq<usize>, taken: Seq<int>, depth: Seq<u8>, m: int)
    requires
        m >= 2,
        is_tree(parent, taken, m),
        depth.len() == 2 * m - 1,
        depth[2 * m - 2] == 0,
        forall|a: int|
            0 <= a < 2 * m - 2 ==> #[trigger] depth[a] == deeper(depth[parent[a] as int]),
        forall|a: int| 0 <= a < m ==> #[trigger] depth[a] <= 15,
    ensures
        sum_range(depth_worth(depth), 0, m) == 0x8000,
{
    let v = depth_worth(depth);
    let nodes = 2 * m - 1;
    // A child of every inner node is no leaf or a leaf of at most 15.
    assert forall|a: int| 0 <= a < nodes implies #[trigger] depth[a] <= 15 by {
        if a >= m {
            lemma_inner_shallow(parent, taken, depth, m, a);
        }
    }
    assert forall|p: int| 0 <= p < m - 1 implies v(m + p) == v(#[trigger] taken[2 * p]) + v(
        taken[2 * p + 1],
    ) by {
        let a = taken[2 * p];
        let b = taken[2 * p + 1];
        assert((2 * p) / 2 == p && (2 * p + 1) / 2 == p) by (nonlinear_arith);
        assert(parent[a] == m + p);
        assert(parent[b] == m + p);
        let dp = depth[m + p];
        assert(depth[a] == deeper(dp) && depth[b] == deeper(dp));
        assert(depth[a] <= 15);
        lemma_pow2_unfold((15 - dp) as nat);
    }
    lemma_leaves_worth_root(v, taken, m, m - 1);
    assert(taken.subrange(0, 2 * (m - 1)) =~= taken);
    lemma_interleaved_sum(v, taken, m, m, nodes - 1);
    assert(sum_range(v, m, nodes) == sum_range(v, m, nodes - 1) + v(nodes - 1));
    lemma2_to64();
    assert(v(nodes - 1) == 0x8000);
}

/// An inner node is no deeper than a leaf below it.
proof fn lemma_inner_shallow(
    parent: Seq<usize>,
    taken: Seq<int>,
    depth: Seq<u8>,
    m: int,
    a: int,
)
    requires
        m >= 2,
        is_tree(parent, taken, m),
        depth.len() == 2 * m - 1,
        forall|a: int|
            0 <= a < 2 * m - 2 ==> #[trigger] depth[a] == deeper(depth[parent[a] as int]),
        forall|a: int| 0 <= a < m ==> #[trigger] depth[a] <= 15,
        m <= a < 2 * m - 1,
    ensures
        depth[a] <= 15,
    decreases a,
{
    let k = 2 * (a - m);
    assert(k / 2 == a - m) by (nonlinear_arith)
        requires
            k == 2 * (a - m),
    ;
    let child = taken[k];
    assert(parent[child] == a);
    assert(child < parent[child]);
    if child >= m {
        lemma_inner_shallow(parent, taken, depth, m, child);
    }
    assert(depth[child] == deeper(depth[a]));
}

/// The depths of the leaves of a Huffman tree over the weights that are not
/// zero, cut off at 255; other positions hold nothing.
#[verifier::rlimit(40)]
fn tree_depths(freqs: &[u32]) -> (depths: Vec<u8>)
    requires
        freqs@.len() < 0xFFFF,
    ensures
        depths@.len() == freqs@.len(),
        shorter_for_frequent(freqs@, depths@),
        two_occur(freqs@) ==> forall|i: int|
            0 <= i < freqs@.len() && freqs@[i] > 0 ==> #[trigger] depths@[i] >= 1,
        two_occur(freqs@) && (forall|i: int|
            0 <= i < freqs@.len() && freqs@[i] > 0 ==> #[trigger] depths@[i] <= 15) ==> sum_range(
            worth(freqs@, depths@),
            0,
            freqs@.len() as int,
        ) == 0x8000,
{
    let n: usize = freqs.len();
    let mut depths: Vec<u8> = vec![0u8; n];
    let order: Vec<usize> = sorted_order(freqs);
    let m: usize = order.len();
    let ghost fs = freqs@;
    if m < 2 {
        proof {
            assert forall|i: int, j: int|
                #![trigger fs[i], fs[j]]
                0 <= i < n && 0 <= j < n && fs[i] > 0 && fs[j] > 0 implies i == j by {
                let a = choose|a: int| 0 <= a < order@.len() && order@[a] == i as usize;
                let b = choose|b: int| 0 <= b < order@.len() && order@[b] == j as usize;
            }
        }
        return depths;
    }
    let mut leaves: Vec<u64> = Vec::new();
    let mut j: usize = 0;
    while j < m
        invariant
            j <= m,
            m == order@.len(),
            n == freqs@.len(),
            ordered(freqs@, order@, n as int),
            leaves@.len() == j,
        decreases m - j,
    {
        assert(order@[j as int] < n);
        leaves.push(freqs[order[j]] as u64);
        j = j + 1;
    }
    let (parent, taken) = build_tree(&leaves);
    let depth: Vec<u8> = leaf_depths(&parent, m, taken);
    let mut t: usize = 0;
    while t < m
        invariant
            t <= m,
            m == order@.len(),
            n == freqs@.len(),
            m <= depth@.len(),
            depths@.len() == n,
            ordered(freqs@, order@, n as int),
            forall|a: int| 0 <= a < t ==> depths@[#[trigger] order@[a] as int] == depth@[a],
        decreases m - t,
    {
        assert(order@[t as int] < n);
        let ghost before = depths@;
        depths.set(order[t], depth[t]);
        proof {
            assert forall|a: int| 0 <= a < t + 1 implies depths@[#[trigger] order@[a] as int]
                == depth@[a] by {
                if a < t {
                    assert(order@[a] != order@[t as int]);
                }
            }
        }
        t = t + 1;
    }
    proof {
        assert forall|i: int, j: int|
            #![trigger fs[i], fs[j]]
            0 <= i < n && 0 <= j < n && fs[i] > fs[j] && fs[j] > 0 implies depths@[i]
            <= depths@[j] by {
            let a = choose|a: int| 0 <= a < order@.len() && order@[a] == i as usize;
            let b = choose|b: int| 0 <= b < order@.len() && order@[b] == j as usize;
            if a < b {
                assert(fs[order@[a] as int] <= fs[order@[b] as int]);
            }
            assert(depths@[order@[a] as int] == depth@[a]);
            assert(depths@[order@[b] as int] == depth@[b]);
        }
        assert forall|i: int| 0 <= i < n && fs[i] > 0 implies #[trigger] depths@[i] >= 1 by {
            assert(fs[i] > 0);
            let a = choose|a: int| 0 <= a < order@.len() && order@[a] == i as usize;
            assert(depths@[order@[a] as int] == depth@[a]);
        }
        if forall|i: int| 0 <= i < n && fs[i] > 0 ==> #[trigger] depths@[i] <= 15 {
            assert forall|a: int| 0 <= a < m implies #[trigger] depth@[a] <= 15 by {
                assert(depths@[order@[a] as int] == depth@[a]);
                assert(fs[order@[a] as int] > 0);
            }
            let v = worth(fs, depths@);
            assert forall|i: int| 0 <= i < n && fs[i] == 0 implies #[trigger] v(i) == 0 by {}
            lemma_built_sum(fs, wide_order(order@), n as int, v);
            lemma_order_sum(fs, depths@, order@, depth@, m as int);
            assert(wide_order(order@).subrange(0, m as int) =~= wide_order(order@));
        }
    }
    depths
}

proof fn lemma_order_sum(
    freqs: Seq<u32>,
    depths: Seq<u8>,
    order: Seq<usize>,
    depth: Seq<u8>,
    k: int,
)
    requires
        0 <= k <= order.len() <= depth.len(),
        forall|a: int|
            0 <= a < order.len() ==> (#[trigger] order[a]) < freqs.len() && freqs[order[a] as int]
                > 0 && depths[order[a] as int] == depth[a],
    ensures
        sum_at(worth(freqs, depths), wide_order(order).subrange(0, k)) == sum_range(
            depth_worth(depth),
            0,
            k,
        ),
    decreases k,
{
    let w = wide_order(order);
    if k > 0 {
        lemma_order_sum(freqs, depths, order, depth, k - 1);
        assert(w.subrange(0, k).drop_last() =~= w.subrange(0, k - 1));
        assert(w.subrange(0, k).last() == order[k - 1]);
        assert(freqs[order[k - 1] as int] > 0);
    } else {
        assert(w.subrange(0, 0) =~= Seq::<int>::empty());
    }
}

/// A depth as the length of a code: none for what does not occur, at least
/// one and at most `max`.
spec fn cut(freq: u32, depth: u8, max: int) -> u8 {
    if freq == 0 {
        0
    } else if depth == 0 {
        1
    } else if depth > max {
        max as u8
    } else {
        depth
    }
}

proof fn lemma_worth_words(freqs: Seq<u32>, depths: Seq<u8>, lengths: Seq<u8>, k: int)
    requires
        0 <= k <= freqs.len(),
        depths.len() == freqs.len(),
        lengths.len() == freqs.len(),
        forall|j: int|
            0 <= j < freqs.len() ==> #[trigger] lengths[j] == if freqs[j] > 0 {
                depths[j]
            } else {
                0
            },
        forall|j: int| 0 <= j < freqs.len() && freqs[j] > 0 ==> #[trigger] depths[j] >= 1,
    ensures
        sum_range(worth(freqs, depths), 0, k) == words_owned(lengths, k as nat),
    decreases k,
{
    if k > 0 {
        lemma_worth_words(freqs, depths, lengths, k - 1);
        assert(lengths[k - 1] == if freqs[k - 1] > 0 {
            depths[k - 1]
        } else {
            0
        });
    }
}

/// A code for the symbols that occur: its lengths are at most `max_len`, no
/// longer for those that occur more often, and no code word is left over where
/// no code is as long as it may be.
pub open spec fn is_code_for(freqs: Seq<u32>, lengths: Seq<u8>, max_len: int) -> bool {
    &&& lengths.len() == freqs.len()
    &&& code_fits(lengths)
    &&& forall|i: int| 0 <= i < lengths.len() ==> #[trigger] lengths[i] <= max_len
    &&& forall|i: int| 0 <= i < lengths.len() ==> (#[trigger] lengths[i] > 0) == (freqs[i] > 0)
    &&& shorter_for_frequent(freqs, lengths)
    &&& two_occur(freqs) && (forall|i: int|
        0 <= i < lengths.len() ==> #[trigger] lengths[i] < max_len) ==> words_owned(
        lengths,
        lengths.len(),
    ) == 0x8000
}

/// Lengths, at most `max_len`, of a code for the symbols that occur: no longer
/// ones for those that occur more often, and no code word left over where no
/// code is as long as it may be.
pub fn build_code_lengths_from_freqs(freqs: &[u32], max_len: usize) -> (lengths: Vec<u8>)
    requires
        1 <= max_len <= 15,
        freqs@.len() <= pow2(max_len as nat),
    ensures
        is_code_for(freqs@, lengths@, max_len as int),
{
    let n: usize = freqs.len();
    proof {
        lemma2_to64();
        if max_len < 15 {
            lemma_pow2_strictly_increases(max_len as nat, 15);
        }
    }
    let mut lengths: Vec<u8> = tree_depths(freqs);
    let ghost depths = lengths@;
    let mut words: u64 = 0;
    let mut i: usize = 0;
    while i < n
        invariant
            i <= n <= 0x8000,
            n == freqs@.len(),
            lengths@.len() == n,
            1 <= max_len <= 15,
            words == words_owned(lengths@.subrange(0, i as int), i as nat),
            words <= i * 0x8000,
            depths.len() == n,
            forall|j: int| i <= j < n ==> #[trigger] lengths@[j] == depths[j],
            forall|j: int|
                0 <= j < i ==> #[trigger] lengths@[j] == cut(freqs@[j], depths[j], max_len as int),
        decreases n - i,
    {
        let d: u8 = lengths[i];
        assert(d == depths[i as int]);
        let l: u8 = if freqs[i] == 0 {
            0
        } else if d == 0 {
            1
        } else if d as usize > max_len {
            max_len as u8
        } else {
            d
        };
        let ghost before = lengths@;
        lengths.set(i, l);
        let add: u64 = if l > 0 {
            shl1(15 - l as u32)
        } else {
            0
        };
        proof {
            let s = lengths@.subrange(0, i + 1);
            assert(lengths@.subrange(0, i as int) =~= before.subrange(0, i as int));
            lemma_words_owned_prefix(s, lengths@.subrange(0, i as int), i as nat);
        }
        words = words + add;
        i = i + 1;
    }
    assert(lengths@.subrange(0, n as int) =~= lengths@);
    let ghost limit = max_len as int;
    proof {
        let fs = freqs@;
        assert forall|i: int, j: int|
            #![trigger fs[i], fs[j]]
            0 <= i < n && 0 <= j < n && fs[i] > fs[j] && fs[j] > 0 implies lengths@[i]
            <= lengths@[j] by {
            assert(depths[i] <= depths[j]);
            assert(lengths@[i] == cut(fs[i], depths[i], limit));
            assert(lengths@[j] == cut(fs[j], depths[j], limit));
        }
        if two_occur(fs) {
            if forall|j: int| 0 <= j < n && fs[j] > 0 ==> #[trigger] depths[j] <= max_len {
                assert forall|j: int| 0 <= j < n implies #[trigger] lengths@[j] == if fs[j] > 0 {
                    depths[j]
                } else {
                    0
                } by {}
                lemma_worth_words(fs, depths, lengths@, n as int);
                assert(words == 0x8000);
            } else {
                let j = choose|j: int|
                    0 <= j < n && fs[j] > 0 && !(#[trigger] depths[j] <= max_len);
                assert(lengths@[j] == max_len);
            }
        }
    }
    while words > 0x8000
        invariant
            shorter_for_frequent(freqs@, lengths@),
            two_occur(freqs@) ==> words == 0x8000 || exists|j: int|
                0 <= j < n && #[trigger] lengths@[j] == max_len,
            n == freqs@.len(),
            n <= 0x8000,
            n <= pow2(max_len as nat),
            lengths@.len() == n,
            1 <= max_len <= 15,
            words == words_owned(lengths@, n as nat),
            forall|j: int|
                0 <= j < n ==> #[trigger] lengths@[j] <= max_len && (lengths@[j] > 0) == (freqs@[j]
                    > 0),
        decreases words,
    {
        // Lengthen the longest code that can still grow, of these the one of
        // the rarest symbol.
        let mut pick: usize = n;
        let mut best: u8 = 0;
        let mut j: usize = 0;
        while j < n
            invariant
                j <= n,
                lengths@.len() == n,
                pick <= n,
                pick < n ==> 0 < lengths@[pick as int] < max_len,
                pick == n ==> best == 0,
                pick < n ==> lengths@[pick as int] == best,
                n == freqs@.len(),
                forall|t: int|
                    0 <= t < j && lengths@[t] < max_len ==> #[trigger] lengths@[t] <= best,
                forall|t: int|
                    0 <= t < j && pick < n && #[trigger] lengths@[t] == best ==> freqs@[pick as int]
                        <= freqs@[t],
                pick == n ==> forall|t: int|
                    0 <= t < j ==> !(0 < #[trigger] lengths@[t] && lengths@[t] < max_len),
            decreases n - j,
        {
            let l: u8 = lengths[j];
            if (l as usize) < max_len && (l > best || (pick < n && l == best && freqs[j]
                < freqs[pick])) {
                best = l;
                pick = j;
            }
            j = j + 1;
        }
        if pick == n {
            proof {
                lemma_words_owned_uniform(lengths@, max_len as int, n as nat);
                lemma_pow2_adds(max_len as nat, (15 - max_len) as nat);
                lemma2_to64();
                lemma_mul_inequality(
                    n as int,
                    pow2(max_len as nat) as int,
                    code_size(max_len as int) as int,
                );
                assert(false);
            }
        }
        let l: u8 = lengths[pick];
        proof {
            lemma_words_owned_update(lengths@, pick as int, (l + 1) as u8, n as nat);
            lemma_pow2_unfold((15 - l) as nat);
            lemma_pow2_pos((15 - l - 1) as nat);
        }
        let ghost before = lengths@;
        lengths.set(pick, l + 1);
        proof {
            let fs = freqs@;
            assert forall|i: int, j: int|
                #![trigger fs[i], fs[j]]
                0 <= i < n && 0 <= j < n && fs[i] > fs[j] && fs[j] > 0 implies lengths@[i]
                <= lengths@[j] by {
                assert(before[i] <= before[j]);
                if i == pick {
                    assert(before[j] != best);
                }
            }
            if two_occur(fs) {
                let j = choose|j: int| 0 <= j < n && #[trigger] before[j] == max_len;
                assert(lengths@[j] == max_len);
            }
        }
        words = words - shl1(15 - l as u32 - 1);
    }
    lengths
}

proof fn lemma_words_owned_prefix(a: Seq<u8>, b: Seq<u8>, k: nat)
    requires
        k <= a.len(),
        k <= b.len(),
        forall|i: int| 0 <= i < k ==> #[trigger] a[i] == b[i],
    ensures
        words_owned(a, k) == words_owned(b, k),
    decreases k,
{
    if k > 0 {
        lemma_words_owned_prefix(a, b, (k - 1) as nat);
    }
}

} // verus!
