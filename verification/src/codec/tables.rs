//! The code lengths a block carries: how they are packed into its first bits.
//!
//! Twenty nibbles give the lengths of a small code; the lengths of the four
//! codes proper follow as one list, spelled by that small code with runs cut
//! short.

use crate::codec::bits::{
    bits_at, lemma_bits_at_concat, lemma_value_bits_len, lemma_value_of_bits, value_bits,
};
use crate::codec::bitstream::{spec_read_bits, BitReader, BitWriter};
use crate::codec::error::CodecError;
use crate::codec::huffman::{
    build_code_lengths_from_freqs, code_bits, code_fits, decode_symbol, encode_symbol,
    lemma_decode_code, lengths_ok, spec_decode_symbol, DecodeTable, EncodeTable,
};
use vstd::arithmetic::div_mod::*;
use vstd::arithmetic::power2::*;
use vstd::prelude::*;

verus! {

/// Symbols of the code that spells the other codes' lengths.
pub const HUFF_BC: usize = 20;

/// Symbols of the main code.
pub const HUFF_NC: usize = 306;

/// Symbols of the RAR5 distance code.
pub const HUFF_DC: usize = 64;

/// Symbols of the RAR7 distance code, which reaches past 4 GiB.
pub const HUFF_DCX: usize = 80;

/// Symbols of the code for the low four bits of a distance.
pub const HUFF_LDC: usize = 16;

/// Symbols of the code for the lengths of repeated distances.
pub const HUFF_RC: usize = 44;

/// Longest code in bits.
pub const MAX_CODE_LENGTH: usize = 15;

/// The nibble that announces a run of zeros, or a length of 15.
pub const NIBBLE_ESCAPE: u8 = 15;

/// `n` zero lengths.
pub open spec fn zero_lengths(n: nat) -> Seq<u8> {
    Seq::new(n, |i: int| 0u8)
}

/// `n` times the length `v`.
pub open spec fn equal_lengths(v: u8, n: nat) -> Seq<u8> {
    Seq::new(n, |i: int| v)
}

pub open spec fn min_nat(a: int, b: int) -> nat {
    if a < b {
        a as nat
    } else {
        b as nat
    }
}

/// Outcome of reading the rest of the twenty nibble-coded lengths, `acc`
/// being those already read.
pub open spec fn read_nibbles(bits: Seq<bool>, pos: int, acc: Seq<u8>) -> Result<
    (Seq<u8>, int),
    CodecError,
>
    decreases HUFF_BC - acc.len(),
{
    if acc.len() >= HUFF_BC {
        Ok((acc, pos))
    } else {
        match spec_read_bits(bits, pos, 4) {
            Err(e) => Err(e),
            Ok((v, p)) => if v != 15 {
                read_nibbles(bits, p, acc.push(v as u8))
            } else {
                match spec_read_bits(bits, p, 4) {
                    Err(e) => Err(e),
                    Ok((c, q)) => if c == 0 {
                        read_nibbles(bits, q, acc.push(15))
                    } else {
                        read_nibbles(
                            bits,
                            q,
                            acc + zero_lengths(min_nat((c + 2) as int, HUFF_BC - acc.len())),
                        )
                    },
                }
            },
        }
    }
}

/// How many lengths a run symbol (16 to 19) stands for, read at `pos`.
pub open spec fn read_run(bits: Seq<bool>, pos: int, sym: int) -> Result<(nat, int), CodecError> {
    if sym == 16 || sym == 18 {
        match spec_read_bits(bits, pos, 3) {
            Err(e) => Err(e),
            Ok((v, p)) => Ok((3 + v, p)),
        }
    } else {
        match spec_read_bits(bits, pos, 7) {
            Err(e) => Err(e),
            Ok((v, p)) => Ok((11 + v, p)),
        }
    }
}

/// Outcome of reading the rest of `count` run-length coded lengths, `acc`
/// being those already read, with the small code `bc`.
pub open spec fn read_lengths(
    bc: Seq<u8>,
    bits: Seq<bool>,
    pos: int,
    acc: Seq<u8>,
    count: int,
) -> Result<(Seq<u8>, int), CodecError>
    decreases count - acc.len(),
{
    if acc.len() >= count {
        Ok((acc, pos))
    } else {
        match spec_decode_symbol(bc, bits, pos) {
            Err(e) => Err(e),
            Ok((sym, p)) => if sym < 16 {
                read_lengths(bc, bits, p, acc.push(sym as u8), count)
            } else if sym < 18 && acc.len() == 0 {
                Err(CodecError::RepeatWithoutLength)
            } else {
                match read_run(bits, p, sym) {
                    Err(e) => Err(e),
                    Ok((n, q)) => {
                        let v = if sym < 18 {
                            acc.last()
                        } else {
                            0
                        };
                        read_lengths(
                            bc,
                            bits,
                            q,
                            acc + equal_lengths(v, min_nat(n as int, count - acc.len())),
                            count,
                        )
                    },
                }
            },
        }
    }
}

/// The lengths of a block's four codes.
pub ghost struct CodeLengths {
    pub nc: Seq<u8>,
    pub dc: Seq<u8>,
    pub ldc: Seq<u8>,
    pub rc: Seq<u8>,
}

/// How many symbols the distance code has.
pub open spec fn dc_count(extra_dist: bool) -> int {
    if extra_dist {
        HUFF_DCX as int
    } else {
        HUFF_DC as int
    }
}

/// How many lengths a block's tables hold.
pub open spec fn table_total(extra_dist: bool) -> int {
    HUFF_NC + dc_count(extra_dist) + HUFF_LDC + HUFF_RC
}

/// The list of all lengths, cut into the four codes.
pub open spec fn cut_lengths(all: Seq<u8>, extra_dist: bool) -> CodeLengths {
    let d = HUFF_NC + dc_count(extra_dist);
    CodeLengths {
        nc: all.subrange(0, HUFF_NC as int),
        dc: all.subrange(HUFF_NC as int, d),
        ldc: all.subrange(d, d + HUFF_LDC),
        rc: all.subrange(d + HUFF_LDC, d + HUFF_LDC + HUFF_RC),
    }
}

/// Outcome of reading a block's tables at `pos`.
#[verifier::opaque]
pub open spec fn spec_read_tables(bits: Seq<bool>, pos: int, extra_dist: bool) -> Result<
    (CodeLengths, int),
    CodecError,
> {
    match read_nibbles(bits, pos, Seq::empty()) {
        Err(e) => Err(e),
        Ok((bc, p)) => match read_lengths(bc, bits, p, Seq::empty(), table_total(extra_dist)) {
            Err(e) => Err(e),
            Ok((all, q)) => Ok((cut_lengths(all, extra_dist), q)),
        },
    }
}

/// The four codes a block is decoded with.
pub struct Tables {
    pub nc: DecodeTable,
    pub dc: DecodeTable,
    pub ldc: DecodeTable,
    pub rc: DecodeTable,
}

impl View for Tables {
    type V = CodeLengths;

    open spec fn view(&self) -> CodeLengths {
        CodeLengths { nc: self.nc@, dc: self.dc@, ldc: self.ldc@, rc: self.rc@ }
    }
}

impl Tables {
    pub open spec fn wf(&self) -> bool {
        &&& self.nc.wf() && self.dc.wf() && self.ldc.wf() && self.rc.wf()
        &&& self.nc@.len() == HUFF_NC
        &&& self.dc@.len() == HUFF_DC || self.dc@.len() == HUFF_DCX
        &&& self.ldc@.len() == HUFF_LDC
        &&& self.rc@.len() == HUFF_RC
    }
}

fn read_bc_lengths(reader: &mut BitReader<'_>) -> (r: Result<Vec<u8>, CodecError>)
    requires
        old(reader).wf(),
    ensures
        final(reader).wf(),
        final(reader).bytes() == old(reader).bytes(),
        match read_nibbles(old(reader).bits(), old(reader).pos(), Seq::empty()) {
            Ok(v) => r is Ok && r->Ok_0@ == v.0 && final(reader).pos() == v.1 && lengths_ok(v.0)
                && v.0.len() == HUFF_BC,
            Err(e) => r == Err::<Vec<u8>, CodecError>(e),
        },
{
    let ghost bits = reader.bits();
    let ghost start = reader.pos();
    let mut lengths: Vec<u8> = Vec::new();
    assert(lengths@ =~= Seq::<u8>::empty());
    while lengths.len() < HUFF_BC
        invariant
            reader.wf(),
            reader.bytes() == old(reader).bytes(),
            bits == reader.bits(),
            bits == old(reader).bits(),
            start == old(reader).pos(),
            lengths@.len() <= HUFF_BC,
            lengths_ok(lengths@),
            read_nibbles(bits, start, Seq::empty()) == read_nibbles(bits, reader.pos(), lengths@),
        decreases HUFF_BC - lengths@.len(),
    {
        let ghost acc = lengths@;
        proof {
            lemma2_to64();
        }
        let v: u32 = match reader.read_bits(4) {
            Ok(v) => v,
            Err(e) => {
                return Err(e);
            },
        };
        if v as u8 == NIBBLE_ESCAPE {
            proof {
                lemma2_to64();
            }
            let c: u32 = match reader.read_bits(4) {
                Ok(c) => c,
                Err(e) => {
                    return Err(e);
                },
            };
            if c == 0 {
                lengths.push(15);
            } else {
                let mut k: u32 = 0;
                while k < c + 2 && lengths.len() < HUFF_BC
                    invariant
                        k <= c + 2,
                        c <= 15,
                        acc.len() < HUFF_BC,
                        lengths@.len() <= HUFF_BC,
                        lengths@ == acc + zero_lengths(k as nat),
                    decreases c + 2 - k,
                {
                    lengths.push(0);
                    k = k + 1;
                    assert(lengths@ =~= acc + zero_lengths(k as nat));
                }
                assert(k == min_nat(c + 2, HUFF_BC - acc.len()));
            }
        } else {
            lengths.push(v as u8);
        }
    }
    Ok(lengths)
}

/// Read `count` run-length coded lengths.
fn read_code_lengths(reader: &mut BitReader<'_>, bc_table: &DecodeTable, count: usize) -> (r: Result<
    Vec<u8>,
    CodecError,
>)
    requires
        old(reader).wf(),
        bc_table.wf(),
        bc_table@.len() == HUFF_BC,
        count <= 0x8000,
    ensures
        final(reader).wf(),
        final(reader).bytes() == old(reader).bytes(),
        match read_lengths(
            bc_table@,
            old(reader).bits(),
            old(reader).pos(),
            Seq::empty(),
            count as int,
        ) {
            Ok(v) => r is Ok && r->Ok_0@ == v.0 && final(reader).pos() == v.1 && lengths_ok(v.0)
                && v.0.len() == count,
            Err(e) => r == Err::<Vec<u8>, CodecError>(e),
        },
{
    let ghost bits = reader.bits();
    let ghost start = reader.pos();
    let ghost bc = bc_table@;
    let mut lengths: Vec<u8> = Vec::new();
    assert(lengths@ =~= Seq::<u8>::empty());
    while lengths.len() < count
        invariant
            reader.wf(),
            reader.bytes() == old(reader).bytes(),
            bits == reader.bits(),
            bits == old(reader).bits(),
            start == old(reader).pos(),
            bc == bc_table@,
            bc_table.wf(),
            bc.len() == HUFF_BC,
            lengths@.len() <= count,
            lengths_ok(lengths@),
            read_lengths(bc, bits, start, Seq::empty(), count as int) == read_lengths(
                bc,
                bits,
                reader.pos(),
                lengths@,
                count as int,
            ),
        decreases count - lengths@.len(),
    {
        let ghost acc = lengths@;
        let sym: usize = match decode_symbol(bc_table, reader) {
            Ok(sym) => sym,
            Err(e) => {
                return Err(e);
            },
        };
        if sym < 16 {
            lengths.push(sym as u8);
        } else {
            if sym < 18 && lengths.len() == 0 {
                return Err(CodecError::RepeatWithoutLength);
            }
            let wide: bool = sym == 17 || sym == 19;
            proof {
                lemma2_to64();
            }
            let v: u32 = match reader.read_bits(if wide { 7 } else { 3 }) {
                Ok(v) => v,
                Err(e) => {
                    return Err(e);
                },
            };
            let repeat: u32 = if wide { 11 + v } else { 3 + v };
            let value: u8 = if sym < 18 {
                lengths[lengths.len() - 1]
            } else {
                0
            };
            let mut k: u32 = 0;
            while k < repeat && lengths.len() < count
                invariant
                    k <= repeat,
                    value <= 15,
                    acc.len() < count,
                    lengths@.len() <= count,
                    lengths_ok(lengths@),
                    lengths@ == acc + equal_lengths(value, k as nat),
                decreases repeat - k,
            {
                lengths.push(value);
                k = k + 1;
                assert(lengths@ =~= acc + equal_lengths(value, k as nat));
            }
            assert(k == min_nat(repeat as int, count - acc.len()));
        }
    }
    Ok(lengths)
}

/// Read a block's tables.
pub fn read_tables(reader: &mut BitReader<'_>, extra_dist: bool) -> (r: Result<Tables, CodecError>)
    requires
        old(reader).wf(),
    ensures
        final(reader).wf(),
        final(reader).bytes() == old(reader).bytes(),
        match spec_read_tables(old(reader).bits(), old(reader).pos(), extra_dist) {
            Ok(v) => r is Ok && r->Ok_0.wf() && r->Ok_0@ == v.0 && final(reader).pos() == v.1,
            Err(e) => r == Err::<Tables, CodecError>(e),
        },
{
    reveal(spec_read_tables);
    let bc_lengths: Vec<u8> = match read_bc_lengths(reader) {
        Ok(v) => v,
        Err(e) => {
            return Err(e);
        },
    };
    let table_bc = DecodeTable::new(bc_lengths.as_slice());
    let dc: usize = if extra_dist { HUFF_DCX } else { HUFF_DC };
    let total: usize = HUFF_NC + dc + HUFF_LDC + HUFF_RC;
    let all: Vec<u8> = match read_code_lengths(reader, &table_bc, total) {
        Ok(v) => v,
        Err(e) => {
            return Err(e);
        },
    };
    let whole = all.as_slice();
    let d: usize = HUFF_NC + dc;
    let tables = Tables {
        nc: DecodeTable::new(vstd::slice::slice_subrange(whole, 0, HUFF_NC)),
        dc: DecodeTable::new(vstd::slice::slice_subrange(whole, HUFF_NC, d)),
        ldc: DecodeTable::new(vstd::slice::slice_subrange(whole, d, d + HUFF_LDC)),
        rc: DecodeTable::new(vstd::slice::slice_subrange(whole, d + HUFF_LDC, total)),
    };
    Ok(tables)
}

/// `new` is `old` with something appended.
pub open spec fn extends(old_bits: Seq<bool>, new_bits: Seq<bool>) -> bool {
    &&& old_bits.len() <= new_bits.len()
    &&& new_bits.subrange(0, old_bits.len() as int) =~= old_bits
}

/// What was appended to `old` to make `new`.
pub open spec fn appended(old_bits: Seq<bool>, new_bits: Seq<bool>) -> Seq<bool> {
    new_bits.subrange(old_bits.len() as int, new_bits.len() as int)
}

pub proof fn lemma_appended(base: Seq<bool>, mid: Seq<bool>, w: Seq<bool>)
    requires
        extends(base, mid),
    ensures
        extends(base, mid + w),
        appended(base, mid + w) == appended(base, mid) + w,
{
    assert(appended(base, mid + w) =~= appended(base, mid) + w);
}

/// A field that was written reads back.
pub proof fn lemma_read_written(bits: Seq<bool>, pos: int, v: nat, n: nat)
    requires
        bits_at(bits, pos, value_bits(v, n)),
        v < pow2(n),
    ensures
        value_bits(v, n).len() == n,
        spec_read_bits(bits, pos, n) == Ok::<(nat, int), CodecError>((v, pos + n)),
{
    lemma_value_bits_len(v, n);
    lemma_value_of_bits(v, n);
    lemma_small_mod(v, pow2(n));
    assert(bits.subrange(pos, pos + n) == value_bits(v, n));
}

/// Reading `w` takes the nibble-coded lengths from `a` to `b`.
pub open spec fn spells_nibbles(w: Seq<bool>, a: Seq<u8>, b: Seq<u8>) -> bool {
    forall|bits: Seq<bool>, pos: int| #[trigger]
        bits_at(bits, pos, w) ==> read_nibbles(bits, pos, a) == read_nibbles(
            bits,
            pos + w.len(),
            b,
        )
}

proof fn lemma_spells_nibbles_concat(
    w: Seq<bool>,
    x: Seq<bool>,
    a: Seq<u8>,
    b: Seq<u8>,
    c: Seq<u8>,
)
    requires
        spells_nibbles(w, a, b),
        spells_nibbles(x, b, c),
    ensures
        spells_nibbles(w + x, a, c),
{
    assert forall|bits: Seq<bool>, pos: int| #[trigger]
        bits_at(bits, pos, w + x) implies read_nibbles(bits, pos, a) == read_nibbles(
        bits,
        pos + (w + x).len(),
        c,
    ) by {
        lemma_bits_at_concat(bits, pos, w, x);
    }
}

proof fn lemma_spells_one_nibble(a: Seq<u8>, v: u8)
    requires
        a.len() < HUFF_BC,
        v < 15,
    ensures
        spells_nibbles(value_bits(v as nat, 4), a, a.push(v)),
{
    lemma2_to64();
    assert forall|bits: Seq<bool>, pos: int| #[trigger]
        bits_at(bits, pos, value_bits(v as nat, 4)) implies read_nibbles(bits, pos, a)
        == read_nibbles(bits, pos + value_bits(v as nat, 4).len(), a.push(v)) by {
        lemma_read_written(bits, pos, v as nat, 4);
    }
}

proof fn lemma_spells_escape(a: Seq<u8>, c: nat)
    requires
        a.len() < HUFF_BC,
        c < 16,
        c > 0 ==> a.len() + c + 2 <= HUFF_BC,
    ensures
        spells_nibbles(
            value_bits(15, 4) + value_bits(c, 4),
            a,
            if c == 0 {
                a.push(15)
            } else {
                a + zero_lengths(c + 2)
            },
        ),
{
    lemma2_to64();
    let w = value_bits(15, 4) + value_bits(c, 4);
    let b = if c == 0 {
        a.push(15)
    } else {
        a + zero_lengths(c + 2)
    };
    assert forall|bits: Seq<bool>, pos: int| #[trigger] bits_at(bits, pos, w) implies read_nibbles(
        bits,
        pos,
        a,
    ) == read_nibbles(bits, pos + w.len(), b) by {
        lemma_bits_at_concat(bits, pos, value_bits(15, 4), value_bits(c, 4));
        lemma_read_written(bits, pos, 15, 4);
        lemma_read_written(bits, pos + 4, c, 4);
    }
}

/// Write the twenty lengths of the small code as nibbles.
fn write_bc_nibbles(writer: &mut BitWriter, bc_lengths: &[u8])
    requires
        old(writer).wf(),
        bc_lengths@.len() == HUFF_BC,
        lengths_ok(bc_lengths@),
        old(writer)@.len() + 160 < 0x1000_0000_0000_0000,
    ensures
        final(writer).wf(),
        extends(old(writer)@, final(writer)@),
        appended(old(writer)@, final(writer)@).len() <= 160,
        spells_nibbles(appended(old(writer)@, final(writer)@), Seq::empty(), bc_lengths@),
{
    let ghost base = writer@;
    let ghost bc = bc_lengths@;
    let mut i: usize = 0;
    proof {
        assert(appended(base, base) =~= Seq::<bool>::empty());
        assert(bc.subrange(0, 0) =~= Seq::<u8>::empty());
    }
    while i < HUFF_BC
        invariant
            writer.wf(),
            bc == bc_lengths@,
            bc.len() == HUFF_BC,
            lengths_ok(bc),
            i <= HUFF_BC,
            base.len() + 160 < 0x1000_0000_0000_0000,
            extends(base, writer@),
            appended(base, writer@).len() <= 8 * i,
            spells_nibbles(appended(base, writer@), Seq::empty(), bc.subrange(0, i as int)),
        decreases HUFF_BC - i,
    {
        let val: u8 = bc_lengths[i];
        if val == 0 {
            let mut run: usize = 0;
            while i + run < HUFF_BC && bc_lengths[i + run] == 0
                invariant
                    bc == bc_lengths@,
                    bc.len() == HUFF_BC,
                    i + run <= HUFF_BC,
                    forall|j: int| i <= j < i + run ==> #[trigger] bc[j] == 0,
                decreases HUFF_BC - i - run,
            {
                run = run + 1;
            }
            let ghost first = i;
            assert(run > 0);
            while run > 0
                invariant
                    writer.wf(),
                    bc == bc_lengths@,
                    bc.len() == HUFF_BC,
                    first <= i,
                    first < i || run > 0,
                    i + run <= HUFF_BC,
                    forall|j: int| i <= j < i + run ==> #[trigger] bc[j] == 0,
                    base.len() + 160 < 0x1000_0000_0000_0000,
                    extends(base, writer@),
                    appended(base, writer@).len() <= 8 * i,
                    spells_nibbles(appended(base, writer@), Seq::empty(), bc.subrange(0, i as int)),
                decreases run,
            {
                let ghost w = appended(base, writer@);
                let ghost a = bc.subrange(0, i as int);
                if run >= 3 {
                    let count: usize = if run < 16 { run } else { 16 };
                    proof {
                        let c = (count - 2) as nat;
                        lemma_spells_escape(a, c);
                        assert(a + zero_lengths(c + 2) =~= bc.subrange(0, i + count));
                        lemma_spells_nibbles_concat(
                            w,
                            value_bits(15, 4) + value_bits(c, 4),
                            Seq::empty(),
                            a,
                            bc.subrange(0, i + count),
                        );
                        lemma_value_bits_len(15, 4);
                        lemma_value_bits_len(c, 4);
                        lemma_appended(base, writer@, value_bits(15, 4));
                        lemma_appended(
                            base,
                            writer@ + value_bits(15, 4),
                            value_bits(c, 4),
                        );
                        assert(w + (value_bits(15, 4) + value_bits(c, 4)) =~= w + value_bits(15, 4)
                            + value_bits(c, 4));
                    }
                    writer.write_bits(NIBBLE_ESCAPE as u32, 4);
                    writer.write_bits((count - 2) as u32, 4);
                    run = run - count;
                    i = i + count;
                } else {
                    proof {
                        lemma_spells_one_nibble(a, 0);
                        assert(a.push(0) =~= bc.subrange(0, i + 1));
                        lemma_spells_nibbles_concat(
                            w,
                            value_bits(0, 4),
                            Seq::empty(),
                            a,
                            bc.subrange(0, i + 1),
                        );
                        lemma_value_bits_len(0, 4);
                        lemma_appended(base, writer@, value_bits(0, 4));
                    }
                    writer.write_bits(0, 4);
                    run = run - 1;
                    i = i + 1;
                }
            }
        } else {
            let ghost w = appended(base, writer@);
            let ghost a = bc.subrange(0, i as int);
            if val == 15 {
                proof {
                    lemma_spells_escape(a, 0);
                    assert(a.push(15) =~= bc.subrange(0, i + 1));
                    lemma_spells_nibbles_concat(
                        w,
                        value_bits(15, 4) + value_bits(0, 4),
                        Seq::empty(),
                        a,
                        bc.subrange(0, i + 1),
                    );
                    lemma_value_bits_len(15, 4);
                    lemma_value_bits_len(0, 4);
                    lemma_appended(base, writer@, value_bits(15, 4));
                    lemma_appended(base, writer@ + value_bits(15, 4), value_bits(0, 4));
                    assert(w + (value_bits(15, 4) + value_bits(0, 4)) =~= w + value_bits(15, 4)
                        + value_bits(0, 4));
                }
                writer.write_bits(NIBBLE_ESCAPE as u32, 4);
                writer.write_bits(0, 4);
            } else {
                proof {
                    assert(val == bc[i as int]);
                    lemma_spells_one_nibble(a, val);
                    assert(a.push(val) =~= bc.subrange(0, i + 1));
                    lemma_spells_nibbles_concat(
                        w,
                        value_bits(val as nat, 4),
                        Seq::empty(),
                        a,
                        bc.subrange(0, i + 1),
                    );
                    lemma_value_bits_len(val as nat, 4);
                    lemma_appended(base, writer@, value_bits(val as nat, 4));
                }
                writer.write_bits(val as u32, 4);
            }
            i = i + 1;
        }
    }
    assert(bc.subrange(0, HUFF_BC as int) =~= bc);
}

/// One step of the run-length coding: a length, or a run of them.
#[derive(Clone, Copy)]
pub struct RleItem(pub u8, pub usize);

/// An item that may follow the lengths `acc`.
pub open spec fn item_ok(acc: Seq<u8>, item: RleItem) -> bool {
    &&& item.0 < HUFF_BC
    &&& item.0 == 16 || item.0 == 18 ==> 3 <= item.1 <= 10
    &&& item.0 == 17 || item.0 == 19 ==> 11 <= item.1 <= 138
    &&& item.0 == 16 || item.0 == 17 ==> acc.len() > 0
}

/// The lengths after one more item.
pub open spec fn apply_item(acc: Seq<u8>, item: RleItem) -> Seq<u8> {
    if item.0 < 16 {
        acc.push(item.0)
    } else if item.0 < 18 {
        acc + equal_lengths(acc.last(), item.1 as nat)
    } else {
        acc + equal_lengths(0, item.1 as nat)
    }
}

/// The lengths that the first `k` items stand for.
pub open spec fn expand_items(items: Seq<RleItem>, k: nat) -> Seq<u8>
    decreases k,
{
    if k == 0 {
        Seq::empty()
    } else {
        apply_item(expand_items(items, (k - 1) as nat), items[k - 1])
    }
}

/// Every item may follow those before it.
pub open spec fn items_ok(items: Seq<RleItem>) -> bool {
    forall|k: int|
        0 <= k < items.len() ==> item_ok(expand_items(items, k as nat), #[trigger] items[k])
}

proof fn lemma_expand_push(items: Seq<RleItem>, item: RleItem, k: nat)
    requires
        k <= items.len(),
    ensures
        expand_items(items.push(item), k) == expand_items(items, k),
    decreases k,
{
    if k > 0 {
        lemma_expand_push(items, item, (k - 1) as nat);
    }
}

proof fn lemma_items_push(items: Seq<RleItem>, item: RleItem)
    requires
        items_ok(items),
        item_ok(expand_items(items, items.len()), item),
    ensures
        items_ok(items.push(item)),
        expand_items(items.push(item), items.len() + 1) == apply_item(
            expand_items(items, items.len()),
            item,
        ),
{
    let more = items.push(item);
    lemma_expand_push(items, item, items.len());
    assert forall|k: int| 0 <= k < more.len() implies item_ok(
        expand_items(more, k as nat),
        #[trigger] more[k],
    ) by {
        lemma_expand_push(items, item, k as nat);
        if k < items.len() {
            assert(more[k] == items[k]);
        }
    }
}

/// Cut a list of lengths into single lengths and runs.
#[verifier::rlimit(50)]
#[verifier::spinoff_prover]
pub fn rle_encode_lengths(lengths: &[u8]) -> (items: Vec<RleItem>)
    requires
        lengths_ok(lengths@),
    ensures
        items_ok(items@),
        expand_items(items@, items@.len()) == lengths@,
        items@.len() <= lengths@.len(),
{
    let n: usize = lengths.len();
    let ghost ls = lengths@;
    let mut items: Vec<RleItem> = Vec::new();
    let mut i: usize = 0;
    assert(ls.subrange(0, 0) =~= Seq::<u8>::empty());
    while i < n
        invariant
            ls == lengths@,
            lengths_ok(ls),
            n == ls.len(),
            i <= n,
            items@.len() <= i,
            items_ok(items@),
            expand_items(items@, items@.len()) == ls.subrange(0, i as int),
        decreases n - i,
    {
        let val: u8 = lengths[i];
        let ghost entry = i;
        if val != 0 {
            proof {
                lemma_items_push(items@, RleItem(val, 0));
                assert(ls.subrange(0, i as int).push(val) =~= ls.subrange(0, i + 1));
            }
            items.push(RleItem(val, 0));
            i = i + 1;
        }
        let mut run: usize = 0;
        while i + run < n && lengths[i + run] == val
            invariant
                ls == lengths@,
                n == ls.len(),
                i + run <= n,
                forall|j: int| i <= j < i + run ==> #[trigger] ls[j] == val,
            decreases n - i - run,
        {
            run = run + 1;
        }
        assert(i > entry || run > 0);
        while run > 0 && (val == 0 || run >= 3)
            invariant
                ls == lengths@,
                n == ls.len(),
                i + run <= n,
                entry <= i,
                i > entry || run > 0,
                val != 0 ==> i > entry,
                val <= 15,
                val != 0 ==> i > 0 && ls[i - 1] == val,
                forall|j: int| i <= j < i + run ==> #[trigger] ls[j] == val,
                items@.len() <= i,
                items_ok(items@),
                expand_items(items@, items@.len()) == ls.subrange(0, i as int),
            decreases run,
        {
            let ghost acc = ls.subrange(0, i as int);
            if run >= 3 {
                let wide: bool = run >= 11;
                let cap: usize = if wide { 138 } else { 10 };
                let count: usize = if run < cap { run } else { cap };
                let sym: u8 = if val == 0 {
                    if wide {
                        19
                    } else {
                        18
                    }
                } else {
                    if wide {
                        17
                    } else {
                        16
                    }
                };
                proof {
                    lemma_items_push(items@, RleItem(sym, count));
                    assert(val != 0 ==> acc.last() == val);
                    assert(apply_item(acc, RleItem(sym, count)) =~= ls.subrange(0, i + count));
                }
                items.push(RleItem(sym, count));
                run = run - count;
                i = i + count;
            } else {
                proof {
                    lemma_items_push(items@, RleItem(0, 0));
                    assert(acc.push(0) =~= ls.subrange(0, i + 1));
                }
                items.push(RleItem(0, 0));
                run = run - 1;
                i = i + 1;
            }
        }
    }
    assert(ls.subrange(0, n as int) =~= ls);
    items
}

/// How many of the first `k` entries are not zero.
pub open spec fn count_nonzero(freq: Seq<u32>, k: nat) -> nat
    decreases k,
{
    if k == 0 {
        0
    } else {
        count_nonzero(freq, (k - 1) as nat) + if freq[k - 1] > 0 {
            1nat
        } else {
            0nat
        }
    }
}

/// The frequencies, with the first zeros raised to one while fewer than two
/// entries are in use.
pub open spec fn two_in_use(freq: Seq<u32>) -> Seq<u32> {
    Seq::new(
        freq.len(),
        |i: int|
            if freq[i] == 0 && count_nonzero(freq, freq.len()) + (i - count_nonzero(freq, i as nat))
                < 2 {
                1
            } else {
                freq[i]
            },
    )
}

proof fn lemma_count_nonzero_bound(freq: Seq<u32>, k: nat)
    requires
        k <= freq.len(),
    ensures
        count_nonzero(freq, k) <= k,
        count_nonzero(freq, k) <= count_nonzero(freq, freq.len()),
    decreases freq.len() - k, k,
{
    if k > 0 {
        lemma_count_nonzero_upto(freq, (k - 1) as nat);
    }
    if k < freq.len() {
        lemma_count_nonzero_bound(freq, k + 1);
    }
}

proof fn lemma_count_nonzero_upto(freq: Seq<u32>, k: nat)
    ensures
        count_nonzero(freq, k) <= k,
    decreases k,
{
    if k > 0 {
        lemma_count_nonzero_upto(freq, (k - 1) as nat);
    }
}

/// Make sure that at least two symbols are in use, where there are two.
pub fn ensure_nonzero(freq: &mut Vec<u32>)
    ensures
        final(freq)@ == two_in_use(old(freq)@),
        final(freq)@.len() == old(freq)@.len(),
{
    let ghost f = freq@;
    let n: usize = freq.len();
    let mut nonzero: usize = 0;
    let mut i: usize = 0;
    while i < n
        invariant
            i <= n,
            n == f.len(),
            freq@ == f,
            nonzero == count_nonzero(f, i as nat),
            nonzero <= i,
        decreases n - i,
    {
        if freq[i] > 0 {
            nonzero = nonzero + 1;
        }
        i = i + 1;
    }
    if nonzero < 2 {
        let mut added: usize = 0;
        let mut j: usize = 0;
        while j < n && nonzero + added < 2
            invariant
                j <= n,
                n == f.len(),
                freq@.len() == n,
                nonzero == count_nonzero(f, n as nat),
                nonzero < 2,
                added <= j,
                added == j - count_nonzero(f, j as nat),
                forall|t: int| j <= t < n ==> #[trigger] freq@[t] == f[t],
                forall|t: int| 0 <= t < j ==> #[trigger] freq@[t] == two_in_use(f)[t],
            decreases n - j,
        {
            if freq[j] == 0 {
                freq.set(j, 1);
                added = added + 1;
            }
            j = j + 1;
        }
        proof {
            assert forall|t: int| j <= t < n implies #[trigger] freq@[t] == two_in_use(f)[t] by {
                lemma_count_zeros_grow(f, j as nat, t as nat);
            }
            assert(freq@ =~= two_in_use(f));
        }
    } else {
        proof {
            assert forall|t: int| 0 <= t < n implies f[t] == #[trigger] two_in_use(f)[t] by {
                lemma_count_nonzero_upto(f, t as nat);
            }
            assert(freq@ =~= two_in_use(f));
        }
    }
}

proof fn lemma_count_zeros_grow(freq: Seq<u32>, a: nat, b: nat)
    requires
        a <= b,
    ensures
        a - count_nonzero(freq, a) <= b - count_nonzero(freq, b),
    decreases b,
{
    if a < b {
        lemma_count_zeros_grow(freq, a, (b - 1) as nat);
    }
}

/// Reading `w` with the small code `bc` takes the lengths from `a` to `b`.
pub open spec fn spells_lengths(
    bc: Seq<u8>,
    w: Seq<bool>,
    a: Seq<u8>,
    b: Seq<u8>,
    count: int,
) -> bool {
    forall|bits: Seq<bool>, pos: int| #[trigger]
        bits_at(bits, pos, w) ==> read_lengths(bc, bits, pos, a, count) == read_lengths(
            bc,
            bits,
            pos + w.len(),
            b,
            count,
        )
}

/// The bits that follow an item's symbol.
pub open spec fn item_tail(item: RleItem) -> Seq<bool> {
    if item.0 == 16 || item.0 == 18 {
        value_bits((item.1 - 3) as nat, 3)
    } else if item.0 == 17 || item.0 == 19 {
        value_bits((item.1 - 11) as nat, 7)
    } else {
        Seq::empty()
    }
}

proof fn lemma_spells_item(bc: Seq<u8>, acc: Seq<u8>, item: RleItem, count: int)
    requires
        code_fits(bc),
        bc.len() == HUFF_BC,
        item_ok(acc, item),
        bc[item.0 as int] > 0,
        apply_item(acc, item).len() <= count,
    ensures
        spells_lengths(
            bc,
            code_bits(bc, item.0 as int) + item_tail(item),
            acc,
            apply_item(acc, item),
            count,
        ),
{
    let c = code_bits(bc, item.0 as int);
    let t = item_tail(item);
    let w = c + t;
    assert forall|bits: Seq<bool>, pos: int| #[trigger] bits_at(bits, pos, w) implies read_lengths(
        bc,
        bits,
        pos,
        acc,
        count,
    ) == read_lengths(bc, bits, pos + w.len(), apply_item(acc, item), count) by {
        lemma_bits_at_concat(bits, pos, c, t);
        lemma_decode_code(bc, item.0 as int, bits, pos);
        lemma2_to64();
        if item.0 == 16 || item.0 == 18 {
            lemma_read_written(bits, pos + c.len(), (item.1 - 3) as nat, 3);
        } else if item.0 == 17 || item.0 == 19 {
            lemma_read_written(bits, pos + c.len(), (item.1 - 11) as nat, 7);
        }
    }
}

proof fn lemma_spells_lengths_concat(
    bc: Seq<u8>,
    w: Seq<bool>,
    x: Seq<bool>,
    a: Seq<u8>,
    b: Seq<u8>,
    c: Seq<u8>,
    count: int,
)
    requires
        spells_lengths(bc, w, a, b, count),
        spells_lengths(bc, x, b, c, count),
    ensures
        spells_lengths(bc, w + x, a, c, count),
{
    assert forall|bits: Seq<bool>, pos: int| #[trigger]
        bits_at(bits, pos, w + x) implies read_lengths(bc, bits, pos, a, count) == read_lengths(
        bc,
        bits,
        pos + (w + x).len(),
        c,
        count,
    ) by {
        lemma_bits_at_concat(bits, pos, w, x);
    }
}

proof fn lemma_expand_grows(items: Seq<RleItem>, j: nat, k: nat)
    requires
        j <= k <= items.len(),
    ensures
        expand_items(items, j).len() <= expand_items(items, k).len(),
    decreases k,
{
    if j < k {
        lemma_expand_grows(items, j, (k - 1) as nat);
    }
}

/// Reading `w` gives the tables `t`.
pub open spec fn spells_tables(w: Seq<bool>, t: CodeLengths, extra_dist: bool) -> bool {
    forall|bits: Seq<bool>, pos: int| #[trigger]
        bits_at(bits, pos, w) ==> spec_read_tables(bits, pos, extra_dist) == Ok::<
            (CodeLengths, int),
            CodecError,
        >((t, pos + w.len()))
}

/// Write a block's tables.
#[verifier::rlimit(50)]
#[verifier::spinoff_prover]
pub fn write_tables(
    writer: &mut BitWriter,
    nc_lengths: &[u8],
    dc_lengths: &[u8],
    ldc_lengths: &[u8],
    rc_lengths: &[u8],
)
    requires
        old(writer).wf(),
        old(writer)@.len() + 20000 < 0x1000_0000_0000_0000,
        nc_lengths@.len() == HUFF_NC,
        dc_lengths@.len() == HUFF_DC || dc_lengths@.len() == HUFF_DCX,
        ldc_lengths@.len() == HUFF_LDC,
        rc_lengths@.len() == HUFF_RC,
        lengths_ok(nc_lengths@),
        lengths_ok(dc_lengths@),
        lengths_ok(ldc_lengths@),
        lengths_ok(rc_lengths@),
    ensures
        final(writer).wf(),
        extends(old(writer)@, final(writer)@),
        0 < appended(old(writer)@, final(writer)@).len() <= 20000,
        spells_tables(
            appended(old(writer)@, final(writer)@),
            CodeLengths {
                nc: nc_lengths@,
                dc: dc_lengths@,
                ldc: ldc_lengths@,
                rc: rc_lengths@,
            },
            dc_lengths@.len() == HUFF_DCX,
        ),
{
    let ghost base = writer@;
    let ghost extra = dc_lengths@.len() == HUFF_DCX;
    let mut all: Vec<u8> = Vec::new();
    all.extend_from_slice(nc_lengths);
    all.extend_from_slice(dc_lengths);
    all.extend_from_slice(ldc_lengths);
    all.extend_from_slice(rc_lengths);
    let ghost ls = all@;
    let ghost count = table_total(extra);
    proof {
        assert(ls =~= nc_lengths@ + dc_lengths@ + ldc_lengths@ + rc_lengths@);
        assert(ls.len() == count);
        let t = cut_lengths(ls, extra);
        assert(t.nc =~= nc_lengths@);
        assert(t.dc =~= dc_lengths@);
        assert(t.ldc =~= ldc_lengths@);
        assert(t.rc =~= rc_lengths@);
    }
    let items: Vec<RleItem> = rle_encode_lengths(all.as_slice());
    let m: usize = items.len();
    let mut freq: Vec<u32> = vec![0u32; HUFF_BC];
    let mut i: usize = 0;
    while i < m
        invariant
            i <= m,
            m == items@.len(),
            m <= 450,
            items_ok(items@),
            freq@.len() == HUFF_BC,
            forall|j: int| 0 <= j < HUFF_BC ==> #[trigger] freq@[j] <= i,
            forall|j: int| 0 <= j < i ==> freq@[(#[trigger] items@[j]).0 as int] > 0,
        decreases m - i,
    {
        let sym: usize = items[i].0 as usize;
        assert(item_ok(expand_items(items@, i as nat), items@[i as int]));
        freq.set(sym, freq[sym] + 1);
        i = i + 1;
    }
    ensure_nonzero(&mut freq);
    proof {
        lemma2_to64();
    }
    let bc_lengths: Vec<u8> = build_code_lengths_from_freqs(freq.as_slice(), MAX_CODE_LENGTH);
    let ghost bc = bc_lengths@;
    write_bc_nibbles(writer, bc_lengths.as_slice());
    let ghost head = writer@;
    let enc_bc = EncodeTable::new(bc_lengths.as_slice());
    let mut k: usize = 0;
    assert(appended(head, head) =~= Seq::<bool>::empty());
    while k < m
        invariant
            writer.wf(),
            enc_bc.wf(),
            enc_bc@ == bc,
            code_fits(bc),
            bc.len() == HUFF_BC,
            k <= m,
            m == items@.len(),
            m <= 450,
            items_ok(items@),
            count <= 450,
            expand_items(items@, m as nat).len() == count,
            forall|j: int| 0 <= j < m ==> bc[(#[trigger] items@[j]).0 as int] > 0,
            head.len() <= base.len() + 160,
            base.len() + 20000 < 0x1000_0000_0000_0000,
            extends(head, writer@),
            appended(head, writer@).len() <= 22 * k,
            spells_lengths(
                bc,
                appended(head, writer@),
                Seq::empty(),
                expand_items(items@, k as nat),
                count,
            ),
        decreases m - k,
    {
        let item: RleItem = items[k];
        let sym: u8 = item.0;
        let ghost acc = expand_items(items@, k as nat);
        let ghost w0 = writer@;
        proof {
            assert(item_ok(acc, items@[k as int]));
            lemma_expand_grows(items@, (k + 1) as nat, m as nat);
            assert(apply_item(acc, item) == expand_items(items@, (k + 1) as nat));
            lemma_spells_item(bc, acc, item, count);
            lemma_spells_lengths_concat(
                bc,
                appended(head, w0),
                code_bits(bc, sym as int) + item_tail(item),
                Seq::empty(),
                acc,
                apply_item(acc, item),
                count,
            );
            lemma_value_bits_len((item.1 - 3) as nat, 3);
            lemma_value_bits_len((item.1 - 11) as nat, 7);
        }
        encode_symbol(&enc_bc, writer, sym as usize);
        let ghost w1 = writer@;
        if sym == 16 || sym == 18 {
            writer.write_bits((item.1 - 3) as u32, 3);
        } else if sym == 17 || sym == 19 {
            writer.write_bits((item.1 - 11) as u32, 7);
        }
        proof {
            let c = code_bits(bc, sym as int);
            let t = item_tail(item);
            assert(writer@ =~= w1 + t);
            lemma_appended(head, w0, c);
            lemma_appended(head, w1, t);
            assert(appended(head, w0) + (c + t) =~= appended(head, w0) + c + t);
        }
        k = k + 1;
    }
    proof {
        reveal(spec_read_tables);
        let a = appended(base, head);
        let b = appended(head, writer@);
        assert(writer@ =~= head + b);
        lemma_appended(base, head, b);
        let w = a + b;
        let t = cut_lengths(ls, extra);
        assert forall|bits: Seq<bool>, pos: int| #[trigger] bits_at(bits, pos, w) implies spec_read_tables(
            bits,
            pos,
            extra,
        ) == Ok::<(CodeLengths, int), CodecError>((t, pos + w.len())) by {
            lemma_bits_at_concat(bits, pos, a, b);
            assert(read_nibbles(bits, pos, Seq::empty()) == read_nibbles(bits, pos + a.len(), bc));
            assert(read_lengths(bc, bits, pos + a.len(), Seq::empty(), count) == read_lengths(
                bc,
                bits,
                pos + a.len() + b.len(),
                ls,
                count,
            ));
        }
        if w.len() == 0 {
            let none = Seq::<bool>::empty();
            assert(bits_at(none, 0, w));
            assert(spec_read_tables(none, 0, extra) is Ok);
            assert(spec_read_bits(none, 0, 4) is Err);
            assert(false);
        }
    }
}

} // verus!
