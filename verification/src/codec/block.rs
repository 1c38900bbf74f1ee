//! Writing one block: its codes, its symbols, its header.

use crate::codec::bits::{bits_at, bits_of, byte_align, lemma_bits_at_concat, lemma_bits_at_shift};
use crate::codec::bitstream::{spec_read_bytes, BitWriter};
use crate::codec::decode::{
    block_tables, le_number, run_block, run_symbols, spec_read_header, xor_all, Header,
    BLOCK_CHECKSUM_SEED,
};
use crate::codec::error::CodecError;
use crate::codec::huffman::{build_code_lengths_from_freqs, is_code_for, lengths_ok, EncodeTable};
use crate::codec::lz::{apply_symbol, Lz};
use crate::codec::slots::{
    distance_extra, distance_slot, distance_slot_bits, encode_distance_slot, encode_length_slot,
    length_slot,
};
use crate::codec::symbols::{
    coded, codes_fit, lemma_read_symbol_bits, symbol_bits, symbol_ok, write_symbol, Encoders,
    Symbol, SYM_CACHE_BASE, SYM_FILTER, SYM_MATCH_BASE, SYM_REPEAT,
};
use crate::codec::tables::{
    appended, ensure_nonzero, spells_tables, two_in_use, write_tables, CodeLengths, HUFF_DC, HUFF_DCX, HUFF_LDC,
    HUFF_NC, HUFF_RC, MAX_CODE_LENGTH,
};
use vstd::arithmetic::power2::*;
use vstd::prelude::*;

verus! {

/// The bits that spell a sequence of symbols.
pub open spec fn symbols_bits(t: CodeLengths, syms: Seq<Symbol>) -> Seq<bool>
    decreases syms.len(),
{
    if syms.len() == 0 {
        Seq::empty()
    } else {
        symbols_bits(t, syms.drop_last()) + symbol_bits(t, syms.last())
    }
}

/// The decoder's state after a sequence of symbols.
pub open spec fn apply_all(z: Lz, n: int, syms: Seq<Symbol>) -> Lz
    decreases syms.len(),
{
    if syms.len() == 0 {
        z
    } else {
        apply_symbol(apply_all(z, n, syms.drop_last()), n, syms.last())
    }
}

/// Before each symbol the output is still short of `goal`.
pub open spec fn short_of(z: Lz, n: int, syms: Seq<Symbol>, goal: int) -> bool {
    forall|k: int|
        0 <= k < syms.len() ==> (#[trigger] apply_all(z, n, syms.subrange(0, k))).out.len() < goal
}

proof fn lemma_symbols_bits_front(t: CodeLengths, syms: Seq<Symbol>)
    requires
        syms.len() > 0,
    ensures
        symbols_bits(t, syms) == symbol_bits(t, syms[0]) + symbols_bits(
            t,
            syms.subrange(1, syms.len() as int),
        ),
    decreases syms.len(),
{
    let rest = syms.subrange(1, syms.len() as int);
    if syms.len() == 1 {
        assert(symbols_bits(t, syms.drop_last()) =~= Seq::<bool>::empty());
        assert(symbols_bits(t, rest) =~= Seq::<bool>::empty());
        assert(symbols_bits(t, syms) =~= symbol_bits(t, syms[0]) + symbols_bits(t, rest));
    } else {
        lemma_symbols_bits_front(t, syms.drop_last());
        assert(syms.drop_last().subrange(1, syms.len() - 1) =~= rest.drop_last());
        assert(rest.last() == syms.last());
        assert(symbols_bits(t, syms) =~= symbol_bits(t, syms[0]) + symbols_bits(t, rest));
    }
}

pub proof fn lemma_apply_concat(z: Lz, n: int, a: Seq<Symbol>, b: Seq<Symbol>)
    ensures
        apply_all(z, n, a + b) == apply_all(apply_all(z, n, a), n, b),
    decreases b.len(),
{
    if b.len() == 0 {
        assert(a + b =~= a);
    } else {
        lemma_apply_concat(z, n, a, b.drop_last());
        assert((a + b).drop_last() =~= a + b.drop_last());
    }
}

proof fn lemma_apply_front(z: Lz, n: int, syms: Seq<Symbol>)
    requires
        syms.len() > 0,
    ensures
        apply_all(z, n, syms) == apply_all(
            apply_symbol(z, n, syms[0]),
            n,
            syms.subrange(1, syms.len() as int),
        ),
{
    let first = syms.subrange(0, 1);
    assert(syms =~= first + syms.subrange(1, syms.len() as int));
    assert(first.drop_last() =~= Seq::<Symbol>::empty());
    assert(apply_all(z, n, first.drop_last()) == z);
    assert(apply_all(z, n, first) == apply_symbol(z, n, syms[0]));
    lemma_apply_concat(z, n, first, syms.subrange(1, syms.len() as int));
}

/// Every symbol can be spelled.
pub open spec fn all_coded(t: CodeLengths, syms: Seq<Symbol>) -> bool {
    forall|i: int|
        0 <= i < syms.len() ==> symbol_ok(#[trigger] syms[i]) && coded(t, syms[i])
}

/// Symbols decode to what was spelled.
pub proof fn lemma_run_spelled(
    t: CodeLengths,
    bits: Seq<bool>,
    pos: int,
    end: int,
    z: Lz,
    n: int,
    goal: int,
    syms: Seq<Symbol>,
)
    requires
        codes_fit(t),
        all_coded(t, syms),
        bits_at(bits, pos, symbols_bits(t, syms)),
        end == pos + symbols_bits(t, syms).len(),
        short_of(z, n, syms, goal),
    ensures
        run_symbols(t, bits, pos, end, z, n, goal) == Ok::<(Lz, int), CodecError>(
            (apply_all(z, n, syms), end),
        ),
    decreases syms.len(),
{
    if syms.len() > 0 {
        let rest = syms.subrange(1, syms.len() as int);
        let w = symbol_bits(t, syms[0]);
        lemma_symbols_bits_front(t, syms);
        lemma_bits_at_concat(bits, pos, w, symbols_bits(t, rest));
        lemma_read_symbol_bits(t, syms[0], bits, pos);
        lemma_apply_front(z, n, syms);
        let z1 = apply_symbol(z, n, syms[0]);
        assert(apply_all(z, n, syms.subrange(0, 0)).out.len() < goal);
        assert(syms.subrange(0, 0) =~= Seq::<Symbol>::empty());
        assert forall|k: int| 0 <= k < rest.len() implies (#[trigger] apply_all(
            z1,
            n,
            rest.subrange(0, k),
        )).out.len() < goal by {
            let s = syms.subrange(0, k + 1);
            lemma_apply_front(z, n, s);
            assert(s.subrange(1, k + 1) =~= rest.subrange(0, k));
            assert(apply_all(z, n, syms.subrange(0, k + 1)).out.len() < goal);
        }
        lemma_run_spelled(t, bits, pos + w.len(), end, z1, n, goal, rest);
    }
}

/// `b` is a block: wherever it stands in a stream, decoding it carries out
/// `syms`, and the next block is looked for behind it.
pub open spec fn block_runs(b: Seq<u8>, syms: Seq<Symbol>, last: bool, extra_dist: bool) -> bool {
    forall|data: Seq<u8>, pos: int, tabs: Option<CodeLengths>, z: Lz, n: int, goal: int|
        stands_at(data, pos, b) && short_of(z, n, syms, goal) ==> {
            let r = #[trigger] run_block(data, pos, tabs, z, n, extra_dist, goal);
            &&& r is Ok
            &&& r->Ok_0.lz == apply_all(z, n, syms)
            &&& r->Ok_0.last == last
            &&& byte_align(r->Ok_0.next) == byte_align(pos) + 8 * b.len()
        }
}

/// The bytes `b` stand in `data` at the first byte at or after bit `pos`.
pub open spec fn stands_at(data: Seq<u8>, pos: int, b: Seq<u8>) -> bool {
    let at = byte_align(pos) / 8;
    0 <= at && at + b.len() <= data.len() && data.subrange(at, at + b.len()) =~= b
}

/// The bytes of a block's size.
pub open spec fn size_bytes(size: int) -> Seq<u8> {
    if size <= 0xFF {
        seq![size as u8]
    } else if size <= 0xFFFF {
        seq![(size % 256) as u8, (size / 256) as u8]
    } else {
        seq![(size % 256) as u8, (size / 256 % 256) as u8, (size / 65536) as u8]
    }
}

/// The flag byte of a block header.
pub open spec fn header_flags(size: int, total_bits: int, last: bool, table: bool) -> u8 {
    ((if table {
        128int
    } else {
        0
    }) + (if last {
        64int
    } else {
        0
    }) + 8 * (size_bytes(size).len() - 1) + (total_bits - 1) % 8) as u8
}

/// A block header: flags, checksum, size.
pub open spec fn header_bytes(size: int, total_bits: int, last: bool, table: bool) -> Seq<u8> {
    let flags = header_flags(size, total_bits, last, table);
    seq![flags, xor_all(BLOCK_CHECKSUM_SEED ^ flags, size_bytes(size))] + size_bytes(size)
}

proof fn lemma_size_bytes(size: int)
    requires
        0 < size <= 0xFF_FFFF,
    ensures
        le_number(size_bytes(size)) == size,
        1 <= size_bytes(size).len() <= 3,
{
    let s = size_bytes(size);
    let s1 = s.subrange(1, s.len() as int);
    let none = Seq::<u8>::empty();
    if s.len() == 1 {
        assert(s1 =~= none);
        assert(le_number(s1) == 0);
    } else {
        let s2 = s1.subrange(1, s1.len() as int);
        if s.len() == 2 {
            assert(s2 =~= none);
            assert(le_number(s2) == 0);
            assert(le_number(s1) == s1[0] + 256 * le_number(s2));
        } else {
            let s3 = s2.subrange(1, s2.len() as int);
            assert(s3 =~= none);
            assert(le_number(s3) == 0);
            assert(le_number(s2) == s2[0] + 256 * le_number(s3));
            assert(le_number(s1) == s1[0] + 256 * le_number(s2));
            assert(size / 65536 == size / 256 / 256);
        }
    }
}

/// A block header reads back.
pub proof fn lemma_header_reads(
    data: Seq<u8>,
    pos: int,
    size: int,
    total_bits: int,
    last: bool,
    table: bool,
)
    requires
        0 < size <= 0xFF_FFFF,
        (size - 1) * 8 < total_bits <= size * 8,
        stands_at(data, pos, header_bytes(size, total_bits, last, table)),
    ensures
        spec_read_header(data, pos) == Ok::<Header, CodecError>(
            Header {
                table,
                last,
                start: byte_align(pos) + 8 * header_bytes(size, total_bits, last, table).len(),
                len: total_bits,
            },
        ),
{
    reveal(spec_read_header);
    let h = header_bytes(size, total_bits, last, table);
    let at = byte_align(pos) / 8;
    let flags = header_flags(size, total_bits, last, table);
    let k = size_bytes(size).len();
    lemma_size_bytes(size);
    let part = data.subrange(at, at + h.len());
    assert(part == h);
    assert(data[at] == h[0]) by {
        assert(part[0] == data[at]);
    }
    assert(data[at + 1] == h[1]) by {
        assert(part[1] == data[at + 1]);
    }
    assert(data.subrange(at + 2, at + 2 + k) =~= size_bytes(size)) by {
        assert forall|i: int| 0 <= i < k implies data.subrange(at + 2, at + 2 + k)[i]
            == size_bytes(size)[i] by {
            assert(part[2 + i] == data[at + 2 + i]);
            assert(h[2 + i] == size_bytes(size)[i]);
        }
    }
    assert(flags / 8 % 4 + 1 == k);
    assert((flags / 128 == 1) == table);
    assert((flags / 64 % 2 == 1) == last);
    assert(flags % 8 == (total_bits - 1) % 8);
    let p1 = 8 * (at + 1);
    assert(byte_align(p1) / 8 == at + 1);
    assert(data.subrange(at, at + 1)[0] == flags);
    let p2 = 8 * (at + 2);
    assert(byte_align(p2) / 8 == at + 2);
    assert(data.subrange(at + 1, at + 2)[0] == h[1]);
    assert(spec_read_bytes(data, pos, 1) == Ok::<(Seq<u8>, int), CodecError>(
        (data.subrange(at, at + 1), p1),
    ));
    assert(spec_read_bytes(data, p1, 1) == Ok::<(Seq<u8>, int), CodecError>(
        (data.subrange(at + 1, at + 2), p2),
    ));
    assert(spec_read_bytes(data, p2, k) == Ok::<(Seq<u8>, int), CodecError>(
        (size_bytes(size), 8 * (at + 2 + k)),
    ));
    assert((size - 1) * 8 + 1 + (total_bits - 1) % 8 == total_bits);
}

/// Put a header before a block's bits.
pub fn build_block_header(
    block_data: &[u8],
    total_bits: usize,
    is_last: bool,
    table_present: bool,
) -> (r: Vec<u8>)
    requires
        0 < block_data@.len() <= 0xFF_FFFF,
        (block_data@.len() - 1) * 8 < total_bits <= block_data@.len() * 8,
    ensures
        r@ == header_bytes(
            block_data@.len() as int,
            total_bits as int,
            is_last,
            table_present,
        ) + block_data@,
{
    let size: usize = block_data.len();
    let ghost sz = size_bytes(size as int);
    let mut bytes: Vec<u8> = Vec::new();
    if size <= 0xFF {
        bytes.push(size as u8);
    } else if size <= 0xFFFF {
        bytes.push((size % 256) as u8);
        bytes.push((size / 256) as u8);
    } else {
        bytes.push((size % 256) as u8);
        bytes.push((size / 256 % 256) as u8);
        bytes.push((size / 65536) as u8);
    }
    assert(bytes@ =~= sz);
    let table: u8 = if table_present { 128 } else { 0 };
    let last: u8 = if is_last { 64 } else { 0 };
    let flags: u8 = table + last + 8 * (bytes.len() as u8 - 1) + ((total_bits - 1) % 8) as u8;
    let mut checksum: u8 = BLOCK_CHECKSUM_SEED ^ flags;
    let mut i: usize = 0;
    assert(sz.subrange(0, 0) =~= Seq::<u8>::empty());
    while i < bytes.len()
        invariant
            i <= bytes@.len(),
            bytes@ == sz,
            checksum == xor_all(BLOCK_CHECKSUM_SEED ^ flags, sz.subrange(0, i as int)),
        decreases bytes@.len() - i,
    {
        checksum = checksum ^ bytes[i];
        proof {
            let s = sz.subrange(0, i + 1);
            assert(s.drop_last() =~= sz.subrange(0, i as int));
        }
        i = i + 1;
    }
    assert(sz.subrange(0, sz.len() as int) =~= sz);
    let mut header: Vec<u8> = Vec::with_capacity(5 + size);
    header.push(flags);
    header.push(checksum);
    header.extend_from_slice(bytes.as_slice());
    header.extend_from_slice(block_data);
    assert(header@ =~= header_bytes(size as int, total_bits as int, is_last, table_present)
        + block_data@);
    header
}

/// `b` is a header and a body that spells tables and symbols.
pub open spec fn block_spells(
    b: Seq<u8>,
    body: Seq<u8>,
    tw: Seq<bool>,
    t: CodeLengths,
    syms: Seq<Symbol>,
    last: bool,
    extra_dist: bool,
) -> bool {
    let w = tw + symbols_bits(t, syms);
    &&& 0 < body.len() <= 0xFF_FFFF
    &&& spells_tables(tw, t, extra_dist)
    &&& syms.len() > 0 ==> codes_fit(t)
    &&& all_coded(t, syms)
    &&& bits_at(bits_of(body), 0, w)
    &&& (body.len() - 1) * 8 < w.len() <= body.len() * 8
    &&& b == header_bytes(body.len() as int, w.len() as int, last, true) + body
}

pub proof fn lemma_parts_stand(data: Seq<u8>, pos: int, h: Seq<u8>, body: Seq<u8>)
    requires
        stands_at(data, pos, h + body),
    ensures
        stands_at(data, pos, h),
        ({
            let at = byte_align(pos) / 8 + h.len();
            0 <= at && at + body.len() <= data.len() && data.subrange(at, at + body.len()) =~= body
        }),
{
    let b = h + body;
    let at = byte_align(pos) / 8;
    let part = data.subrange(at, at + b.len());
    assert(part == b);
    assert forall|i: int| 0 <= i < h.len() implies data.subrange(at, at + h.len())[i] == h[i] by {
        assert(part[i] == data[at + i]);
    }
    let at2 = at + h.len();
    assert forall|i: int| 0 <= i < body.len() implies data.subrange(at2, at2 + body.len())[i]
        == body[i] by {
        assert(part[h.len() + i] == data[at2 + i]);
        assert(b[h.len() + i] == body[i]);
    }
}

/// A block whose body spells tables and symbols does what they say.
#[verifier::rlimit(60)]
#[verifier::spinoff_prover]
pub proof fn lemma_block_runs_at(
    b: Seq<u8>,
    body: Seq<u8>,
    tw: Seq<bool>,
    t: CodeLengths,
    syms: Seq<Symbol>,
    last: bool,
    extra_dist: bool,
    data: Seq<u8>,
    pos: int,
    tabs: Option<CodeLengths>,
    z: Lz,
    n: int,
    goal: int,
)
    requires
        block_spells(b, body, tw, t, syms, last, extra_dist),
        stands_at(data, pos, b),
        short_of(z, n, syms, goal),
    ensures
        ({
            let r = run_block(data, pos, tabs, z, n, extra_dist, goal);
            &&& r is Ok
            &&& r->Ok_0.lz == apply_all(z, n, syms)
            &&& r->Ok_0.tabs == t
            &&& r->Ok_0.last == last
            &&& byte_align(r->Ok_0.next) == byte_align(pos) + 8 * b.len()
        }),
{
    let sw = symbols_bits(t, syms);
    let w = tw + sw;
    let size = body.len() as int;
    let h = header_bytes(size, w.len() as int, last, true);
    let start = byte_align(pos) + 8 * h.len();
    let bits = bits_of(data);
    let p = start + tw.len();
    let end = start + w.len();
    let head = Header { table: true, last, start, len: w.len() as int };
    lemma_parts_stand(data, pos, h, body);
    assert(spec_read_header(data, pos) == Ok::<Header, CodecError>(head)) by {
        lemma_header_reads(data, pos, size, w.len() as int, last, true);
    }
    assert(bits_at(bits, start, tw) && bits_at(bits, p, sw)) by {
        lemma_bits_at_shift(data, byte_align(pos) / 8 + h.len(), body, 0, w);
        lemma_bits_at_concat(bits, start, tw, sw);
    }
    let tr = block_tables(data, head, tabs, extra_dist);
    assert(tr == Ok::<(CodeLengths, int), CodecError>((t, p)));
    let sr = run_symbols(t, bits, p, end, z, n, goal);
    assert(sr == Ok::<(Lz, int), CodecError>((apply_all(z, n, syms), end))) by {
        if syms.len() > 0 {
            lemma_run_spelled(t, bits, p, end, z, n, goal, syms);
        }
    }
    assert(byte_align(end) == start + 8 * size);
}

proof fn lemma_block_runs(
    b: Seq<u8>,
    body: Seq<u8>,
    tw: Seq<bool>,
    t: CodeLengths,
    syms: Seq<Symbol>,
    last: bool,
    extra_dist: bool,
)
    requires
        block_spells(b, body, tw, t, syms, last, extra_dist),
    ensures
        block_runs(b, syms, last, extra_dist),
{
    assert forall|data: Seq<u8>, pos: int, tabs: Option<CodeLengths>, z: Lz, n: int, goal: int|
        stands_at(data, pos, b) && short_of(z, n, syms, goal) implies {
        let r = #[trigger] run_block(data, pos, tabs, z, n, extra_dist, goal);
        &&& r is Ok
        &&& r->Ok_0.lz == apply_all(z, n, syms)
        &&& r->Ok_0.last == last
        &&& byte_align(r->Ok_0.next) == byte_align(pos) + 8 * b.len()
    } by {
        lemma_block_runs_at(
            b,
            body,
            tw,
            t,
            syms,
            last,
            extra_dist,
            data,
            pos,
            tabs,
            z,
            n,
            goal,
        );
    }
}

/// How often each symbol of the four codes is needed.
pub struct Frequencies {
    pub nc: Vec<u32>,
    pub dc: Vec<u32>,
    pub ldc: Vec<u32>,
    pub rc: Vec<u32>,
}

/// How often each symbol of the four codes is needed.
pub ghost struct Counts {
    pub nc: Seq<u32>,
    pub dc: Seq<u32>,
    pub ldc: Seq<u32>,
    pub rc: Seq<u32>,
}

/// One more of the `i`th.
pub open spec fn one_more(s: Seq<u32>, i: int) -> Seq<u32> {
    s.update(i, (s[i] + 1) as u32)
}

/// The counts with what one symbol needs.
pub open spec fn counted(c: Counts, sym: Symbol) -> Counts {
    match sym {
        Symbol::Literal(b) => Counts { nc: one_more(c.nc, b as int), ..c },
        Symbol::Match { distance, length } => {
            let slot = distance_slot(distance as int);
            let low = distance_extra(distance as int) as int % 16;
            Counts {
                nc: one_more(c.nc, SYM_MATCH_BASE + length_slot(length as int)),
                dc: one_more(c.dc, slot),
                ldc: if distance_slot_bits(slot) >= 4 {
                    one_more(c.ldc, low)
                } else {
                    c.ldc
                },
                ..c
            }
        },
        Symbol::CacheRef { index, length } => Counts {
            nc: one_more(c.nc, SYM_CACHE_BASE + index),
            rc: one_more(c.rc, length_slot(length as int)),
            ..c
        },
        Symbol::Repeat => Counts { nc: one_more(c.nc, SYM_REPEAT as int), ..c },
        Symbol::Filter { .. } => Counts { nc: one_more(c.nc, SYM_FILTER as int), ..c },
    }
}

/// `n` times zero.
pub open spec fn none_of(n: nat) -> Seq<u32> {
    Seq::new(n, |i: int| 0u32)
}

/// What a sequence of symbols needs of codes with `distances` distances.
pub open spec fn counts_of(syms: Seq<Symbol>, distances: nat) -> Counts
    decreases syms.len(),
{
    if syms.len() == 0 {
        Counts {
            nc: none_of(HUFF_NC as nat),
            dc: none_of(distances),
            ldc: none_of(HUFF_LDC as nat),
            rc: none_of(HUFF_RC as nat),
        }
    } else {
        counted(counts_of(syms.drop_last(), distances), syms.last())
    }
}

/// How many distance codes there are.
pub open spec fn distance_codes(extra_dist: bool) -> nat {
    if extra_dist {
        HUFF_DCX as nat
    } else {
        HUFF_DC as nat
    }
}

/// The codes are codes for what is counted, and for at least two symbols each.
pub open spec fn codes_for(c: Counts, t: CodeLengths) -> bool {
    let max = MAX_CODE_LENGTH as int;
    &&& is_code_for(two_in_use(c.nc), t.nc, max)
    &&& is_code_for(two_in_use(c.dc), t.dc, max)
    &&& is_code_for(two_in_use(c.ldc), t.ldc, max)
    &&& is_code_for(two_in_use(c.rc), t.rc, max)
}

/// `b` is a block that spells codes for its symbols, and with them the
/// symbols.
pub open spec fn block_coded(b: Seq<u8>, syms: Seq<Symbol>, last: bool, extra_dist: bool) -> bool {
    exists|body: Seq<u8>, tw: Seq<bool>, t: CodeLengths| #[trigger]
        block_spells(b, body, tw, t, syms, last, extra_dist) && codes_for(
            counts_of(syms, distance_codes(extra_dist)),
            t,
        )
}

/// The frequencies count everything that `sym` needs.
pub open spec fn covers(f: Frequencies, sym: Symbol) -> bool {
    match sym {
        Symbol::Literal(b) => f.nc@[b as int] > 0,
        Symbol::Match { distance, length } => {
            &&& f.nc@[SYM_MATCH_BASE + length_slot(length as int)] > 0
            &&& f.dc@[distance_slot(distance as int)] > 0
            &&& distance_slot_bits(distance_slot(distance as int)) >= 4 ==> f.ldc@[(
            distance_extra(distance as int) % 16) as int] > 0
        },
        Symbol::CacheRef { index, length } => {
            &&& f.nc@[SYM_CACHE_BASE + index] > 0
            &&& f.rc@[length_slot(length as int)] > 0
        },
        Symbol::Repeat => f.nc@[SYM_REPEAT as int] > 0,
        Symbol::Filter { .. } => f.nc@[SYM_FILTER as int] > 0,
    }
}

/// Entrywise: `b` counts what `a` counts, and at most one more.
pub open spec fn counts_more(a: Seq<u32>, b: Seq<u32>) -> bool {
    &&& a.len() == b.len()
    &&& forall|i: int| 0 <= i < a.len() ==> a[i] <= #[trigger] b[i] <= a[i] + 1
}

impl Frequencies {
    pub open spec fn wf(&self) -> bool {
        &&& self.nc@.len() == HUFF_NC
        &&& self.dc@.len() == HUFF_DC || self.dc@.len() == HUFF_DCX
        &&& self.ldc@.len() == HUFF_LDC
        &&& self.rc@.len() == HUFF_RC
    }

    /// What is counted.
    pub open spec fn counts(&self) -> Counts {
        Counts { nc: self.nc@, dc: self.dc@, ldc: self.ldc@, rc: self.rc@ }
    }

    /// No entry is above `k`.
    pub open spec fn at_most(&self, k: int) -> bool {
        &&& forall|i: int| 0 <= i < self.nc@.len() ==> #[trigger] self.nc@[i] <= k
        &&& forall|i: int| 0 <= i < self.dc@.len() ==> #[trigger] self.dc@[i] <= k
        &&& forall|i: int| 0 <= i < self.ldc@.len() ==> #[trigger] self.ldc@[i] <= k
        &&& forall|i: int| 0 <= i < self.rc@.len() ==> #[trigger] self.rc@[i] <= k
    }

    pub fn new(extra_dist: bool) -> (f: Frequencies)
        ensures
            f.wf(),
            f.at_most(0),
            f.counts() == counts_of(Seq::empty(), f.dc@.len()),
            f.dc@.len() == if extra_dist {
                HUFF_DCX
            } else {
                HUFF_DC
            },
    {
        let f = Frequencies {
            nc: vec![0u32; HUFF_NC],
            dc: vec![
                0u32;
                if extra_dist {
                    HUFF_DCX
                } else {
                    HUFF_DC
                }
            ],
            ldc: vec![0u32; HUFF_LDC],
            rc: vec![0u32; HUFF_RC],
        };
        proof {
            assert(f.nc@ =~= none_of(HUFF_NC as nat));
            assert(f.dc@ =~= none_of(f.dc@.len()));
            assert(f.ldc@ =~= none_of(HUFF_LDC as nat));
            assert(f.rc@ =~= none_of(HUFF_RC as nat));
        }
        f
    }

    /// Count what one symbol needs.
    pub fn count(&mut self, sym: Symbol)
        requires
            old(self).wf(),
            symbol_ok(sym),
            old(self).at_most(u32::MAX - 1),
        ensures
            final(self).wf(),
            final(self).counts() == counted(old(self).counts(), sym),
            covers(*final(self), sym),
            counts_more(old(self).nc@, final(self).nc@),
            counts_more(old(self).dc@, final(self).dc@),
            counts_more(old(self).ldc@, final(self).ldc@),
            counts_more(old(self).rc@, final(self).rc@),
    {
        match sym {
            Symbol::Literal(b) => {
                let i: usize = b as usize;
                self.nc.set(i, self.nc[i] + 1);
            },
            Symbol::Match { distance, length } => {
                let i: usize = SYM_MATCH_BASE + encode_length_slot(length);
                self.nc.set(i, self.nc[i] + 1);
                let (slot, extra, dbits) = encode_distance_slot(distance as u32);
                self.dc.set(slot, self.dc[slot] + 1);
                if dbits >= 4 {
                    let low: usize = (extra % 16) as usize;
                    self.ldc.set(low, self.ldc[low] + 1);
                }
            },
            Symbol::CacheRef { index, length } => {
                let i: usize = SYM_CACHE_BASE + index;
                self.nc.set(i, self.nc[i] + 1);
                let slot: usize = encode_length_slot(length);
                self.rc.set(slot, self.rc[slot] + 1);
            },
            Symbol::Repeat => {
                self.nc.set(SYM_REPEAT, self.nc[SYM_REPEAT] + 1);
            },
            Symbol::Filter { .. } => {
                self.nc.set(SYM_FILTER, self.nc[SYM_FILTER] + 1);
            },
        }
    }

    /// What was covered stays covered.
    pub proof fn lemma_covers_more(a: Frequencies, b: Frequencies, sym: Symbol)
        requires
            a.wf(),
            b.wf(),
            symbol_ok(sym),
            covers(a, sym),
            a.dc@.len() == b.dc@.len(),
            counts_more(a.nc@, b.nc@),
            counts_more(a.dc@, b.dc@),
            counts_more(a.ldc@, b.ldc@),
            counts_more(a.rc@, b.rc@),
        ensures
            covers(b, sym),
    {
    }

    /// The lengths of codes for the symbols counted, and at least two of
    /// each.
    pub fn code_lengths(&self) -> (r: (Vec<u8>, Vec<u8>, Vec<u8>, Vec<u8>))
        requires
            self.wf(),
        ensures
            r.0@.len() == HUFF_NC,
            r.1@.len() == self.dc@.len(),
            codes_fit(CodeLengths { nc: r.0@, dc: r.1@, ldc: r.2@, rc: r.3@ }),
            codes_for(self.counts(), CodeLengths { nc: r.0@, dc: r.1@, ldc: r.2@, rc: r.3@ }),
            forall|sym: Symbol|
                symbol_ok(sym) && #[trigger] covers(*self, sym) ==> coded(
                    CodeLengths { nc: r.0@, dc: r.1@, ldc: r.2@, rc: r.3@ },
                    sym,
                ),
    {
        let mut nc: Vec<u32> = self.nc.clone();
        let mut dc: Vec<u32> = self.dc.clone();
        let mut ldc: Vec<u32> = self.ldc.clone();
        let mut rc: Vec<u32> = self.rc.clone();
        assert(nc@ =~= self.nc@);
        assert(dc@ =~= self.dc@);
        assert(ldc@ =~= self.ldc@);
        assert(rc@ =~= self.rc@);
        ensure_nonzero(&mut nc);
        ensure_nonzero(&mut dc);
        ensure_nonzero(&mut ldc);
        ensure_nonzero(&mut rc);
        proof {
            lemma2_to64();
        }
        let a: Vec<u8> = build_code_lengths_from_freqs(nc.as_slice(), MAX_CODE_LENGTH);
        let b: Vec<u8> = build_code_lengths_from_freqs(dc.as_slice(), MAX_CODE_LENGTH);
        let c: Vec<u8> = build_code_lengths_from_freqs(ldc.as_slice(), MAX_CODE_LENGTH);
        let d: Vec<u8> = build_code_lengths_from_freqs(rc.as_slice(), MAX_CODE_LENGTH);
        proof {
            let t = CodeLengths { nc: a@, dc: b@, ldc: c@, rc: d@ };
            assert forall|sym: Symbol|
                symbol_ok(sym) && #[trigger] covers(*self, sym) implies coded(t, sym) by {
                assert(forall|i: int| 0 <= i < nc@.len() && self.nc@[i] > 0 ==> #[trigger] nc@[i] > 0);
                assert(forall|i: int| 0 <= i < dc@.len() && self.dc@[i] > 0 ==> #[trigger] dc@[i] > 0);
                assert(forall|i: int|
                    0 <= i < ldc@.len() && self.ldc@[i] > 0 ==> #[trigger] ldc@[i] > 0);
                assert(forall|i: int| 0 <= i < rc@.len() && self.rc@[i] > 0 ==> #[trigger] rc@[i] > 0);
            }
        }
        (a, b, c, d)
    }
}

/// Largest number of symbols in one block.
pub const MAX_BLOCK_SYMBOLS: usize = 1400000;

/// Every symbol is one the format can spell.
pub open spec fn symbols_ok(syms: Seq<Symbol>) -> bool {
    forall|i: int| 0 <= i < syms.len() ==> symbol_ok(#[trigger] syms[i])
}

/// Encode one block of symbols, with codes made for it.
pub fn encode_block(symbols: &[Symbol], is_last: bool, extra_dist: bool) -> (b: Vec<u8>)
    requires
        symbols@.len() <= MAX_BLOCK_SYMBOLS,
        symbols_ok(symbols@),
    ensures
        block_runs(b@, symbols@, is_last, extra_dist),
        0 < b@.len() <= 0x100_0000,
        block_coded(b@, symbols@, is_last, extra_dist),
{
    let ghost syms = symbols@;
    let m: usize = symbols.len();
    let mut freq = Frequencies::new(extra_dist);
    let ghost dcn = freq.dc@.len();
    let mut i: usize = 0;
    assert(symbols@.subrange(0, 0) =~= Seq::<Symbol>::empty());
    while i < m
        invariant
            i <= m,
            m == symbols@.len(),
            m <= MAX_BLOCK_SYMBOLS,
            symbols_ok(symbols@),
            freq.wf(),
            freq.dc@.len() == dcn,
            freq.counts() == counts_of(symbols@.subrange(0, i as int), dcn),
            freq.at_most(i as int),
            forall|j: int| 0 <= j < i ==> covers(freq, #[trigger] symbols@[j]),
        decreases m - i,
    {
        let ghost before = freq;
        freq.count(symbols[i]);
        proof {
            assert(symbols@.subrange(0, i + 1).drop_last() =~= symbols@.subrange(0, i as int));
            assert forall|j: int| 0 <= j < i + 1 implies covers(freq, #[trigger] symbols@[j]) by {
                if j < i {
                    Frequencies::lemma_covers_more(before, freq, symbols@[j]);
                }
            }
        }
        i = i + 1;
    }
    assert(symbols@.subrange(0, m as int) =~= symbols@);
    let (nc, dc, ldc, rc) = freq.code_lengths();
    let ghost t = CodeLengths { nc: nc@, dc: dc@, ldc: ldc@, rc: rc@ };
    let mut writer = BitWriter::new();
    write_tables(&mut writer, nc.as_slice(), dc.as_slice(), ldc.as_slice(), rc.as_slice());
    let ghost tw = writer@;
    assert(appended(Seq::<bool>::empty(), tw) =~= tw);
    let enc = Encoders {
        nc: EncodeTable::new(nc.as_slice()),
        dc: EncodeTable::new(dc.as_slice()),
        ldc: EncodeTable::new(ldc.as_slice()),
        rc: EncodeTable::new(rc.as_slice()),
    };
    let mut k: usize = 0;
    assert(syms.subrange(0, 0) =~= Seq::<Symbol>::empty());
    assert(writer@ =~= tw + symbols_bits(t, syms.subrange(0, 0)));
    while k < m
        invariant
            k <= m,
            syms == symbols@,
            m == syms.len(),
            m <= MAX_BLOCK_SYMBOLS,
            symbols_ok(syms),
            writer.wf(),
            enc.wf(),
            enc@ == t,
            tw.len() <= 20000,
            writer@ == tw + symbols_bits(t, syms.subrange(0, k as int)),
            writer@.len() <= 20000 + 91 * k,
        decreases m - k,
    {
        write_symbol(&mut writer, &enc, symbols[k]);
        proof {
            let s = syms.subrange(0, k + 1);
            assert(s.drop_last() =~= syms.subrange(0, k as int));
            assert(writer@ =~= tw + symbols_bits(t, s));
        }
        k = k + 1;
    }
    assert(syms.subrange(0, m as int) =~= syms);
    let total_bits: usize = writer.bit_count();
    let ghost w = writer@;
    let body: Vec<u8> = writer.into_bytes();
    proof {
        assert(bits_of(body@).subrange(0, w.len() as int) =~= w);
    }
    let r = build_block_header(body.as_slice(), total_bits, is_last, true);
    proof {
        lemma_block_runs(r@, body@, tw, t, syms, is_last, extra_dist);
        lemma_size_bytes(body@.len() as int);
        assert(block_spells(r@, body@, tw, t, syms, is_last, extra_dist));
        assert(codes_for(counts_of(syms, distance_codes(extra_dist)), t));
    }
    r
}

fn one_symbol(count: usize) -> (v: Vec<u8>)
    requires
        count > 0,
    ensures
        v@.len() == count,
        lengths_ok(v@),
{
    let mut v: Vec<u8> = vec![0u8; count];
    v.set(0, 1);
    v
}

/// Encode a block without symbols, the last of its stream.
pub fn encode_empty_block(extra_dist: bool) -> (b: Vec<u8>)
    ensures
        block_runs(b@, Seq::empty(), true, extra_dist),
        0 < b@.len() <= 0x100_0000,
        exists|body: Seq<u8>, tw: Seq<bool>, t: CodeLengths| #[trigger]
            block_spells(b@, body, tw, t, Seq::empty(), true, extra_dist),
{
    let nc: Vec<u8> = one_symbol(HUFF_NC);
    let dc: Vec<u8> = one_symbol(if extra_dist { HUFF_DCX } else { HUFF_DC });
    let ldc: Vec<u8> = one_symbol(HUFF_LDC);
    let rc: Vec<u8> = one_symbol(HUFF_RC);
    let ghost t = CodeLengths { nc: nc@, dc: dc@, ldc: ldc@, rc: rc@ };
    let mut writer = BitWriter::new();
    write_tables(&mut writer, nc.as_slice(), dc.as_slice(), ldc.as_slice(), rc.as_slice());
    let ghost tw = writer@;
    assert(appended(Seq::<bool>::empty(), tw) =~= tw);
    let total_bits: usize = writer.bit_count();
    let body: Vec<u8> = writer.into_bytes();
    proof {
        let none = Seq::<Symbol>::empty();
        assert(tw + symbols_bits(t, none) =~= tw);
        assert(bits_of(body@).subrange(0, tw.len() as int) =~= tw);
    }
    let r = build_block_header(body.as_slice(), total_bits, true, true);
    proof {
        lemma_block_runs(r@, body@, tw, t, Seq::empty(), true, extra_dist);
        lemma_size_bytes(body@.len() as int);
    }
    r
}

} // verus!
