//! The symbols of a compressed block, as written and as read.

use crate::codec::bits::{bits_at, lemma_bits_at_concat, lemma_value_bits_len, value_bits};
use crate::codec::bitstream::{spec_read_bits, BitReader, BitWriter};
use crate::codec::error::CodecError;
use crate::codec::huffman::{
    code_bits, code_fits, decode_symbol, encode_symbol, lemma_decode_code, spec_decode_symbol,
    EncodeTable,
};
use crate::codec::slots::{
    decode_distance, decode_length, distance_extra, distance_field, distance_slot,
    distance_slot_bits, encode_distance_slot, encode_length_slot, in_distance_slot, in_length_slot,
    lemma_distance_field, lemma_length_field, length_field, length_slot, spec_read_distance,
    spec_read_length, write_distance_extra, write_length_extra, MAX_MATCH,
};
use crate::codec::tables::{
    lemma_read_written, CodeLengths, Tables, HUFF_DC, HUFF_DCX, HUFF_LDC, HUFF_NC, HUFF_RC,
};
use vstd::arithmetic::power2::*;
use vstd::prelude::*;

verus! {

/// Main-code symbol that announces an output filter.
pub const SYM_FILTER: usize = 256;

/// Main-code symbol that repeats the last match.
pub const SYM_REPEAT: usize = 257;

/// First of the four main-code symbols for remembered distances.
pub const SYM_CACHE_BASE: usize = 258;

/// First main-code symbol of a match.
pub const SYM_MATCH_BASE: usize = 262;

/// Filter that undoes byte differences.
pub const FILTER_DELTA: u8 = 0;

/// Filter for x86 call targets.
pub const FILTER_E8: u8 = 1;

/// Filter for x86 call and jump targets.
pub const FILTER_E8E9: u8 = 2;

/// Filter for ARM branch targets.
pub const FILTER_ARM: u8 = 3;

/// One symbol of a block.
#[derive(Clone, Copy, Debug, PartialEq, Eq, Structural)]
pub enum Symbol {
    /// One output byte.
    Literal(u8),
    /// A match at a new distance. The decoder adds the distance's bonus to
    /// the length.
    Match { distance: u64, length: u32 },
    /// A match at a remembered distance.
    CacheRef { index: usize, length: u32 },
    /// The last match once more.
    Repeat,
    /// An output filter; the start counts from the current output position.
    Filter { block_start: u32, block_length: u32, filter_type: u8, channels: u8 },
}

/// Outcome of reading a little-endian number of `n` bytes.
pub open spec fn read_le(bits: Seq<bool>, pos: int, n: nat) -> Result<(nat, int), CodecError>
    decreases n,
{
    if n == 0 {
        Ok((0, pos))
    } else {
        match spec_read_bits(bits, pos, 8) {
            Err(e) => Err(e),
            Ok((b, p)) => match read_le(bits, p, (n - 1) as nat) {
                Err(e) => Err(e),
                Ok((rest, q)) => Ok((b + 256 * rest, q)),
            },
        }
    }
}

/// Outcome of reading a filter's start or length.
pub open spec fn read_filter_data(bits: Seq<bool>, pos: int) -> Result<(nat, int), CodecError> {
    match spec_read_bits(bits, pos, 2) {
        Err(e) => Err(e),
        Ok((n, p)) => read_le(bits, p, n + 1),
    }
}

/// Outcome of reading a filter record, after its symbol.
pub open spec fn read_filter(bits: Seq<bool>, pos: int) -> Result<(Symbol, int), CodecError> {
    match read_filter_data(bits, pos) {
        Err(e) => Err(e),
        Ok((start, p)) => match read_filter_data(bits, p) {
            Err(e) => Err(e),
            Ok((length, q)) => match spec_read_bits(bits, q, 3) {
                Err(e) => Err(e),
                Ok((kind, r)) => if kind == FILTER_DELTA {
                    match spec_read_bits(bits, r, 5) {
                        Err(e) => Err(e),
                        Ok((c, t)) => Ok(
                            (
                                Symbol::Filter {
                                    block_start: start as u32,
                                    block_length: length as u32,
                                    filter_type: kind as u8,
                                    channels: (c + 1) as u8,
                                },
                                t,
                            ),
                        ),
                    }
                } else {
                    Ok(
                        (
                            Symbol::Filter {
                                block_start: start as u32,
                                block_length: length as u32,
                                filter_type: kind as u8,
                                channels: 0,
                            },
                            r,
                        ),
                    )
                },
            },
        },
    }
}

/// Outcome of reading one symbol at `pos`.
#[verifier::opaque]
pub open spec fn spec_read_symbol(t: CodeLengths, bits: Seq<bool>, pos: int) -> Result<
    (Symbol, int),
    CodecError,
> {
    match spec_decode_symbol(t.nc, bits, pos) {
        Err(e) => Err(e),
        Ok((s, p)) => if s < 256 {
            Ok((Symbol::Literal(s as u8), p))
        } else if s == SYM_FILTER {
            read_filter(bits, p)
        } else if s == SYM_REPEAT {
            Ok((Symbol::Repeat, p))
        } else if s < SYM_MATCH_BASE {
            match spec_decode_symbol(t.rc, bits, p) {
                Err(e) => Err(e),
                Ok((slot, q)) => match spec_read_length(slot, bits, q) {
                    Err(e) => Err(e),
                    Ok((length, r)) => Ok(
                        (
                            Symbol::CacheRef {
                                index: (s - SYM_CACHE_BASE) as usize,
                                length: length as u32,
                            },
                            r,
                        ),
                    ),
                },
            }
        } else {
            match spec_read_length(s - SYM_MATCH_BASE, bits, p) {
                Err(e) => Err(e),
                Ok((length, q)) => match spec_decode_symbol(t.dc, bits, q) {
                    Err(e) => Err(e),
                    Ok((slot, r)) => match spec_read_distance(slot, t.ldc, bits, r) {
                        Err(e) => Err(e),
                        Ok((dist, u)) => Ok(
                            (Symbol::Match { distance: dist as u64, length: length as u32 }, u),
                        ),
                    },
                },
            }
        },
    }
}

/// Bounds that every symbol that can be read keeps.
pub open spec fn symbol_bounded(sym: Symbol) -> bool {
    match sym {
        Symbol::Literal(_) => true,
        Symbol::Match { distance, length } => 1 <= distance <= 0x200_0000_0000 && 2 <= length
            <= 4097,
        Symbol::CacheRef { index, length } => index < 4 && 2 <= length <= 4097,
        Symbol::Repeat => true,
        Symbol::Filter { block_start, block_length, filter_type, channels } => filter_type < 8
            && channels <= 32 && (filter_type == FILTER_DELTA <==> channels > 0),
    }
}

fn parse_le(reader: &mut BitReader<'_>, n: u8) -> (r: Result<u32, CodecError>)
    requires
        old(reader).wf(),
        n <= 4,
    ensures
        final(reader).wf(),
        final(reader).bytes() == old(reader).bytes(),
        match read_le(old(reader).bits(), old(reader).pos(), n as nat) {
            Ok(v) => r == Ok::<u32, CodecError>(v.0 as u32) && v.0 < pow2(8 * n as nat)
                && final(reader).pos() == v.1 && v.1 >= old(reader).pos(),
            Err(e) => r == Err::<u32, CodecError>(e),
        },
    decreases n,
{
    proof {
        lemma2_to64();
    }
    if n == 0 {
        return Ok(0);
    }
    let b: u32 = match reader.read_bits(8) {
        Ok(v) => v,
        Err(e) => {
            return Err(e);
        },
    };
    let rest: u32 = match parse_le(reader, n - 1) {
        Ok(v) => v,
        Err(e) => {
            return Err(e);
        },
    };
    proof {
        lemma_pow2_adds(8 * (n - 1) as nat, 8);
        if n < 4 {
            lemma_pow2_strictly_increases(8 * (n - 1) as nat, 24);
        }
    }
    Ok(b + 256 * rest)
}

fn parse_filter_data(reader: &mut BitReader<'_>) -> (r: Result<u32, CodecError>)
    requires
        old(reader).wf(),
    ensures
        final(reader).wf(),
        final(reader).bytes() == old(reader).bytes(),
        match read_filter_data(old(reader).bits(), old(reader).pos()) {
            Ok(v) => r == Ok::<u32, CodecError>(v.0 as u32) && v.0 <= u32::MAX
                && final(reader).pos() == v.1 && v.1 >= old(reader).pos(),
            Err(e) => r == Err::<u32, CodecError>(e),
        },
{
    proof {
        lemma2_to64();
    }
    let n: u32 = match reader.read_bits(2) {
        Ok(v) => v,
        Err(e) => {
            return Err(e);
        },
    };
    proof {
        if n < 3 {
            lemma_pow2_strictly_increases(8 * (n + 1) as nat, 32);
        }
    }
    parse_le(reader, n as u8 + 1)
}

/// Read a filter record, after its symbol.
fn parse_filter(reader: &mut BitReader<'_>) -> (r: Result<Symbol, CodecError>)
    requires
        old(reader).wf(),
    ensures
        final(reader).wf(),
        final(reader).bytes() == old(reader).bytes(),
        match read_filter(old(reader).bits(), old(reader).pos()) {
            Ok(v) => r == Ok::<Symbol, CodecError>(v.0) && symbol_bounded(v.0)
                && final(reader).pos() == v.1 && v.1 >= old(reader).pos(),
            Err(e) => r == Err::<Symbol, CodecError>(e),
        },
{
    proof {
        lemma2_to64();
    }
    let block_start: u32 = match parse_filter_data(reader) {
        Ok(v) => v,
        Err(e) => {
            return Err(e);
        },
    };
    let block_length: u32 = match parse_filter_data(reader) {
        Ok(v) => v,
        Err(e) => {
            return Err(e);
        },
    };
    let filter_type: u8 = match reader.read_bits(3) {
        Ok(v) => v as u8,
        Err(e) => {
            return Err(e);
        },
    };
    let channels: u8 = if filter_type == FILTER_DELTA {
        match reader.read_bits(5) {
            Ok(v) => v as u8 + 1,
            Err(e) => {
                return Err(e);
            },
        }
    } else {
        0
    };
    Ok(Symbol::Filter { block_start, block_length, filter_type, channels })
}

/// Read one symbol of a block.
pub fn read_symbol(tables: &Tables, reader: &mut BitReader<'_>) -> (r: Result<Symbol, CodecError>)
    requires
        old(reader).wf(),
        tables.wf(),
    ensures
        final(reader).wf(),
        final(reader).bytes() == old(reader).bytes(),
        match spec_read_symbol(tables@, old(reader).bits(), old(reader).pos()) {
            Ok(v) => r == Ok::<Symbol, CodecError>(v.0) && symbol_bounded(v.0)
                && final(reader).pos() == v.1 && v.1 > old(reader).pos(),
            Err(e) => r == Err::<Symbol, CodecError>(e),
        },
{
    reveal(spec_read_symbol);
    let s: usize = match decode_symbol(&tables.nc, reader) {
        Ok(v) => v,
        Err(e) => {
            return Err(e);
        },
    };
    if s < 256 {
        Ok(Symbol::Literal(s as u8))
    } else if s == SYM_FILTER {
        parse_filter(reader)
    } else if s == SYM_REPEAT {
        Ok(Symbol::Repeat)
    } else if s < SYM_MATCH_BASE {
        let slot: usize = match decode_symbol(&tables.rc, reader) {
            Ok(v) => v,
            Err(e) => {
                return Err(e);
            },
        };
        match decode_length(slot, reader) {
            Ok(length) => Ok(Symbol::CacheRef { index: s - SYM_CACHE_BASE, length }),
            Err(e) => Err(e),
        }
    } else {
        let length: u32 = match decode_length(s - SYM_MATCH_BASE, reader) {
            Ok(v) => v,
            Err(e) => {
                return Err(e);
            },
        };
        let slot: usize = match decode_symbol(&tables.dc, reader) {
            Ok(v) => v,
            Err(e) => {
                return Err(e);
            },
        };
        match decode_distance(slot, reader, &tables.ldc) {
            Ok(distance) => Ok(Symbol::Match { distance, length }),
            Err(e) => Err(e),
        }
    }
}

/// Reading a symbol moves on, and stays within the bits.
pub proof fn lemma_read_symbol_advances(t: CodeLengths, bits: Seq<bool>, pos: int)
    ensures
        match spec_read_symbol(t, bits, pos) {
            Ok(v) => pos < v.1 <= bits.len(),
            Err(_) => true,
        },
{
    reveal(spec_read_symbol);
    if spec_read_symbol(t, bits, pos) is Ok {
        lemma_decode_advances(t.nc, bits, pos);
        let v = spec_decode_symbol(t.nc, bits, pos)->Ok_0;
        let p = v.1;
        lemma_decode_advances(t.rc, bits, p);
        if v.0 == SYM_FILTER {
            lemma_filter_data_advances(bits, p);
            let q = read_filter_data(bits, p)->Ok_0.1;
            lemma_filter_data_advances(bits, q);
        } else if v.0 >= SYM_MATCH_BASE {
            let q = spec_read_length(v.0 - SYM_MATCH_BASE, bits, p)->Ok_0.1;
            lemma_decode_advances(t.dc, bits, q);
            let d = spec_decode_symbol(t.dc, bits, q)->Ok_0;
            if distance_slot_bits(d.0) >= 4 {
                let w = spec_read_bits(bits, d.1, (distance_slot_bits(d.0) - 4) as nat)->Ok_0;
                lemma_decode_advances(t.ldc, bits, w.1);
            }
        }
    }
}

proof fn lemma_decode_advances(lengths: Seq<u8>, bits: Seq<bool>, pos: int)
    ensures
        match spec_decode_symbol(lengths, bits, pos) {
            Ok(v) => pos < v.1 <= bits.len() && 0 <= v.0 < lengths.len(),
            Err(_) => true,
        },
{
}

proof fn lemma_le_advances(bits: Seq<bool>, pos: int, n: nat)
    ensures
        match read_le(bits, pos, n) {
            Ok(v) => v.1 >= pos,
            Err(_) => true,
        },
    decreases n,
{
    if n > 0 && spec_read_bits(bits, pos, 8) is Ok {
        lemma_le_advances(bits, spec_read_bits(bits, pos, 8)->Ok_0.1, (n - 1) as nat);
    }
}

proof fn lemma_filter_data_advances(bits: Seq<bool>, pos: int)
    ensures
        match read_filter_data(bits, pos) {
            Ok(v) => v.1 >= pos,
            Err(_) => true,
        },
{
    if spec_read_bits(bits, pos, 2) is Ok {
        let v = spec_read_bits(bits, pos, 2)->Ok_0;
        lemma_le_advances(bits, v.1, v.0 + 1);
    }
}

/// The bytes a filter's start or length takes.
pub open spec fn filter_data_size(v: int) -> nat {
    if v <= 0xFF {
        1
    } else if v <= 0xFFFF {
        2
    } else if v <= 0xFF_FFFF {
        3
    } else {
        4
    }
}

/// A little-endian number of `n` bytes.
pub open spec fn le_field(v: nat, n: nat) -> Seq<bool>
    decreases n,
{
    if n == 0 {
        Seq::empty()
    } else {
        value_bits(v % 256, 8) + le_field(v / 256, (n - 1) as nat)
    }
}

/// The bits of a filter's start or length.
pub open spec fn filter_data_bits(v: nat) -> Seq<bool> {
    value_bits((filter_data_size(v as int) - 1) as nat, 2) + le_field(
        v,
        filter_data_size(v as int),
    )
}

proof fn lemma_le_field(v: nat, n: nat, bits: Seq<bool>, pos: int)
    requires
        v < pow2(8 * n),
        bits_at(bits, pos, le_field(v, n)),
    ensures
        le_field(v, n).len() == 8 * n,
        read_le(bits, pos, n) == Ok::<(nat, int), CodecError>((v, pos + 8 * n)),
    decreases n,
{
    lemma2_to64();
    if n > 0 {
        let a = value_bits(v % 256, 8);
        let b = le_field(v / 256, (n - 1) as nat);
        lemma_bits_at_concat(bits, pos, a, b);
        lemma_read_written(bits, pos, v % 256, 8);
        lemma_pow2_adds(8 * (n - 1) as nat, 8);
        lemma_le_field(v / 256, (n - 1) as nat, bits, pos + 8);
    }
}

proof fn lemma_le_field_len(v: nat, n: nat)
    ensures
        le_field(v, n).len() == 8 * n,
    decreases n,
{
    if n > 0 {
        lemma_le_field_len(v / 256, (n - 1) as nat);
        lemma_value_bits_len(v % 256, 8);
    }
}

proof fn lemma_filter_data_bits(v: nat, bits: Seq<bool>, pos: int)
    requires
        v <= u32::MAX,
        bits_at(bits, pos, filter_data_bits(v)),
    ensures
        read_filter_data(bits, pos) == Ok::<(nat, int), CodecError>(
            (v, pos + filter_data_bits(v).len()),
        ),
{
    lemma2_to64();
    let n = filter_data_size(v as int);
    let a = value_bits((n - 1) as nat, 2);
    let b = le_field(v, n);
    lemma_bits_at_concat(bits, pos, a, b);
    lemma_read_written(bits, pos, (n - 1) as nat, 2);
    lemma_le_field(v, n, bits, pos + 2);
}

/// The four codes fit and have the sizes of a block's codes.
pub open spec fn codes_fit(t: CodeLengths) -> bool {
    &&& code_fits(t.nc) && code_fits(t.dc) && code_fits(t.ldc) && code_fits(t.rc)
    &&& t.nc.len() == HUFF_NC
    &&& t.dc.len() == HUFF_DC || t.dc.len() == HUFF_DCX
    &&& t.ldc.len() == HUFF_LDC
    &&& t.rc.len() == HUFF_RC
}

/// A symbol the format can spell.
pub open spec fn symbol_ok(sym: Symbol) -> bool {
    &&& symbol_bounded(sym)
    &&& match sym {
        Symbol::Match { distance, length } => distance <= u32::MAX && in_length_slot(
            length as int,
            length_slot(length as int),
        ) && 0 <= length_slot(length as int) <= 43 && in_distance_slot(
            distance as int,
            distance_slot(distance as int),
        ) && 0 <= distance_slot(distance as int) <= 63,
        Symbol::CacheRef { index, length } => in_length_slot(
            length as int,
            length_slot(length as int),
        ) && 0 <= length_slot(length as int) <= 43,
        _ => true,
    }
}

/// The codes have a code for everything `sym` needs.
pub open spec fn coded(t: CodeLengths, sym: Symbol) -> bool {
    match sym {
        Symbol::Literal(b) => t.nc[b as int] > 0,
        Symbol::Match { distance, length } => {
            &&& t.nc[SYM_MATCH_BASE + length_slot(length as int)] > 0
            &&& t.dc[distance_slot(distance as int)] > 0
            &&& distance_slot_bits(distance_slot(distance as int)) >= 4 ==> t.ldc[(
            distance_extra(distance as int) % 16) as int] > 0
        },
        Symbol::CacheRef { index, length } => {
            &&& t.nc[SYM_CACHE_BASE + index] > 0
            &&& t.rc[length_slot(length as int)] > 0
        },
        Symbol::Repeat => t.nc[SYM_REPEAT as int] > 0,
        Symbol::Filter { .. } => t.nc[SYM_FILTER as int] > 0,
    }
}

/// The bits that spell `sym`.
pub open spec fn symbol_bits(t: CodeLengths, sym: Symbol) -> Seq<bool> {
    match sym {
        Symbol::Literal(b) => code_bits(t.nc, b as int),
        Symbol::Match { distance, length } => {
            let ls = length_slot(length as int);
            let ds = distance_slot(distance as int);
            (code_bits(t.nc, SYM_MATCH_BASE + ls) + length_field(length as int, ls)) + (code_bits(
                t.dc,
                ds,
            ) + distance_field(t.ldc, distance_extra(distance as int), distance_slot_bits(ds)))
        },
        Symbol::CacheRef { index, length } => {
            let ls = length_slot(length as int);
            (code_bits(t.nc, SYM_CACHE_BASE + index) + code_bits(t.rc, ls)) + length_field(
                length as int,
                ls,
            )
        },
        Symbol::Repeat => code_bits(t.nc, SYM_REPEAT as int),
        Symbol::Filter { block_start, block_length, filter_type, channels } => {
            (code_bits(t.nc, SYM_FILTER as int) + filter_data_bits(block_start as nat)) + (
            filter_data_bits(block_length as nat) + (value_bits(filter_type as nat, 3) + if filter_type
                == FILTER_DELTA {
                value_bits((channels - 1) as nat, 5)
            } else {
                Seq::empty()
            }))
        },
    }
}

/// A symbol reads back from its bits, whatever follows them.
#[verifier::rlimit(50)]
#[verifier::spinoff_prover]
pub proof fn lemma_read_symbol_bits(t: CodeLengths, sym: Symbol, bits: Seq<bool>, pos: int)
    requires
        codes_fit(t),
        symbol_ok(sym),
        coded(t, sym),
        bits_at(bits, pos, symbol_bits(t, sym)),
    ensures
        symbol_bits(t, sym).len() > 0,
        spec_read_symbol(t, bits, pos) == Ok::<(Symbol, int), CodecError>(
            (sym, pos + symbol_bits(t, sym).len()),
        ),
{
    reveal(spec_read_symbol);
    match sym {
        Symbol::Literal(b) => {
            lemma_decode_code(t.nc, b as int, bits, pos);
        },
        Symbol::Match { distance, length } => {
            let ls = length_slot(length as int);
            let ds = distance_slot(distance as int);
            let extra = distance_extra(distance as int);
            let a = code_bits(t.nc, SYM_MATCH_BASE + ls);
            let b = length_field(length as int, ls);
            let c = code_bits(t.dc, ds);
            let d = distance_field(t.ldc, extra, distance_slot_bits(ds));
            lemma_bits_at_concat(bits, pos, a + b, c + d);
            lemma_bits_at_concat(bits, pos, a, b);
            lemma_bits_at_concat(bits, pos + (a + b).len(), c, d);
            lemma_decode_code(t.nc, SYM_MATCH_BASE + ls, bits, pos);
            lemma_length_field(length as int, ls, bits, pos + a.len());
            lemma_decode_code(t.dc, ds, bits, pos + (a + b).len());
            lemma_distance_field(t.ldc, ds, extra, bits, pos + (a + b).len() + c.len());
        },
        Symbol::CacheRef { index, length } => {
            let ls = length_slot(length as int);
            let a = code_bits(t.nc, SYM_CACHE_BASE + index);
            let b = code_bits(t.rc, ls);
            let c = length_field(length as int, ls);
            lemma_bits_at_concat(bits, pos, a + b, c);
            lemma_bits_at_concat(bits, pos, a, b);
            lemma_decode_code(t.nc, SYM_CACHE_BASE + index, bits, pos);
            lemma_decode_code(t.rc, ls, bits, pos + a.len());
            lemma_length_field(length as int, ls, bits, pos + (a + b).len());
        },
        Symbol::Repeat => {
            lemma_decode_code(t.nc, SYM_REPEAT as int, bits, pos);
        },
        Symbol::Filter { block_start, block_length, filter_type, channels } => {
            lemma2_to64();
            let a = code_bits(t.nc, SYM_FILTER as int);
            let b = filter_data_bits(block_start as nat);
            let c = filter_data_bits(block_length as nat);
            let d = value_bits(filter_type as nat, 3);
            let e = if filter_type == FILTER_DELTA {
                value_bits((channels - 1) as nat, 5)
            } else {
                Seq::empty()
            };
            lemma_bits_at_concat(bits, pos, a + b, c + (d + e));
            lemma_bits_at_concat(bits, pos, a, b);
            let p = pos + (a + b).len();
            lemma_bits_at_concat(bits, p, c, d + e);
            let q = p + c.len();
            lemma_bits_at_concat(bits, q, d, e);
            lemma_decode_code(t.nc, SYM_FILTER as int, bits, pos);
            lemma_filter_data_bits(block_start as nat, bits, pos + a.len());
            lemma_filter_data_bits(block_length as nat, bits, p);
            lemma_read_written(bits, q, filter_type as nat, 3);
            if filter_type == FILTER_DELTA {
                lemma_read_written(bits, q + 3, (channels - 1) as nat, 5);
            }
        },
    }
}

/// The encoding sides of a block's four codes.
pub struct Encoders {
    pub nc: EncodeTable,
    pub dc: EncodeTable,
    pub ldc: EncodeTable,
    pub rc: EncodeTable,
}

impl View for Encoders {
    type V = CodeLengths;

    open spec fn view(&self) -> CodeLengths {
        CodeLengths { nc: self.nc@, dc: self.dc@, ldc: self.ldc@, rc: self.rc@ }
    }
}

impl Encoders {
    pub open spec fn wf(&self) -> bool {
        self.nc.wf() && self.dc.wf() && self.ldc.wf() && self.rc.wf() && codes_fit(self@)
    }
}

/// Write a match at a new distance.
pub fn write_match(writer: &mut BitWriter, enc: &Encoders, dist: u64, length: u32)
    requires
        old(writer).wf(),
        enc.wf(),
        1 <= dist <= u32::MAX,
        2 <= length <= MAX_MATCH,
        old(writer)@.len() + 100 < 0x1000_0000_0000_0000,
    ensures
        final(writer).wf(),
        final(writer)@ == old(writer)@ + symbol_bits(
            enc@,
            (Symbol::Match { distance: dist, length }),
        ),
        symbol_bits(enc@, (Symbol::Match { distance: dist, length })).len() <= 84,
{
    let ghost w = writer@;
    let len_slot: usize = encode_length_slot(length);
    encode_symbol(&enc.nc, writer, SYM_MATCH_BASE + len_slot);
    write_length_extra(writer, length, len_slot);
    let (dist_slot, extra, dbits) = encode_distance_slot(dist as u32);
    encode_symbol(&enc.dc, writer, dist_slot);
    write_distance_extra(writer, &enc.ldc, extra, dbits);
    assert(writer@ =~= w + symbol_bits(enc@, Symbol::Match { distance: dist, length }));
}

/// Write a match at a remembered distance.
pub fn write_cache_ref(writer: &mut BitWriter, enc: &Encoders, cache_idx: usize, length: u32)
    requires
        old(writer).wf(),
        enc.wf(),
        cache_idx < 4,
        2 <= length <= MAX_MATCH,
        old(writer)@.len() + 100 < 0x1000_0000_0000_0000,
    ensures
        final(writer).wf(),
        final(writer)@ == old(writer)@ + symbol_bits(
            enc@,
            (Symbol::CacheRef { index: cache_idx, length }),
        ),
        symbol_bits(enc@, (Symbol::CacheRef { index: cache_idx, length })).len() <= 84,
{
    let ghost w = writer@;
    encode_symbol(&enc.nc, writer, SYM_CACHE_BASE + cache_idx);
    let len_slot: usize = encode_length_slot(length);
    encode_symbol(&enc.rc, writer, len_slot);
    write_length_extra(writer, length, len_slot);
    assert(writer@ =~= w + symbol_bits(enc@, Symbol::CacheRef { index: cache_idx, length }));
}

fn write_le(writer: &mut BitWriter, value: u32, n: u8)
    requires
        old(writer).wf(),
        n <= 4,
        old(writer)@.len() + 32 < 0x1000_0000_0000_0000,
    ensures
        final(writer).wf(),
        final(writer)@ == old(writer)@ + le_field(value as nat, n as nat),
        le_field(value as nat, n as nat).len() == 8 * n,
{
    let ghost w = writer@;
    let mut v: u32 = value;
    let mut i: u8 = 0;
    assert(w + le_field(value as nat, n as nat) =~= writer@ + le_field(value as nat, n as nat));
    while i < n
        invariant
            writer.wf(),
            i <= n <= 4,
            w.len() + 32 < 0x1000_0000_0000_0000,
            writer@.len() == w.len() + 8 * i,
            w + le_field(value as nat, n as nat) == writer@ + le_field(v as nat, (n - i) as nat),
        decreases n - i,
    {
        let ghost before = writer@;
        let ghost rest = (n - i) as nat;
        proof {
            lemma_value_bits_len((v % 256) as nat, 8);
        }
        writer.write_bits(v % 256, 8);
        proof {
            assert(before + le_field(v as nat, rest) =~= writer@ + le_field(
                (v / 256) as nat,
                (rest - 1) as nat,
            ));
        }
        v = v / 256;
        i = i + 1;
    }
    proof {
        lemma_le_field_len(value as nat, n as nat);
        assert(writer@ + le_field(v as nat, 0) =~= writer@);
    }
}

/// Emit a filter's start or length: `[2 bits byte_count-1][LE bytes]`.
pub fn write_filter_data(writer: &mut BitWriter, value: u32)
    requires
        old(writer).wf(),
        old(writer)@.len() + 40 < 0x1000_0000_0000_0000,
    ensures
        final(writer).wf(),
        final(writer)@ == old(writer)@ + filter_data_bits(value as nat),
        filter_data_bits(value as nat).len() <= 34,
{
    let ghost w = writer@;
    let count: u8 = if value <= 0xFF {
        1
    } else if value <= 0xFFFF {
        2
    } else if value <= 0xFF_FFFF {
        3
    } else {
        4
    };
    proof {
        lemma_value_bits_len((count - 1) as nat, 2);
    }
    writer.write_bits((count - 1) as u32, 2);
    write_le(writer, value, count);
    assert(writer@ =~= w + filter_data_bits(value as nat));
}

/// Write one symbol.
pub fn write_symbol(writer: &mut BitWriter, enc: &Encoders, sym: Symbol)
    requires
        old(writer).wf(),
        enc.wf(),
        symbol_ok(sym),
        old(writer)@.len() + 100 < 0x1000_0000_0000_0000,
    ensures
        final(writer).wf(),
        final(writer)@ == old(writer)@ + symbol_bits(enc@, sym),
        symbol_bits(enc@, sym).len() <= 91,
{
    let ghost w = writer@;
    match sym {
        Symbol::Literal(b) => {
            encode_symbol(&enc.nc, writer, b as usize);
        },
        Symbol::Match { distance, length } => {
            write_match(writer, enc, distance, length);
        },
        Symbol::CacheRef { index, length } => {
            write_cache_ref(writer, enc, index, length);
        },
        Symbol::Repeat => {
            encode_symbol(&enc.nc, writer, SYM_REPEAT);
        },
        Symbol::Filter { block_start, block_length, filter_type, channels } => {
            proof {
                lemma_value_bits_len(filter_type as nat, 3);
                lemma_value_bits_len((channels - 1) as nat, 5);
            }
            encode_symbol(&enc.nc, writer, SYM_FILTER);
            write_filter_data(writer, block_start);
            write_filter_data(writer, block_length);
            writer.write_bits(filter_type as u32, 3);
            if filter_type == FILTER_DELTA {
                writer.write_bits((channels - 1) as u32, 5);
            }
            assert(writer@ =~= w + symbol_bits(enc@, sym));
        },
    }
}

} // verus!
