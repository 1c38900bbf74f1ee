//! Decoding a compressed member: blocks, symbols, output filters.

use crate::codec::bits::{bits_of, lemma_bits_of_len};
use crate::codec::bitstream::{spec_read_bytes, BitReader};
use crate::codec::error::CodecError;
use crate::codec::filters::{apply_filter_decode, filter_decoded, lemma_filter_len};
use crate::codec::lz::{apply_symbol, lemma_apply_symbol, FilterRegion, Lz, LzCore};
use crate::codec::symbols::{
    lemma_read_symbol_advances, read_symbol, spec_read_symbol, Symbol, FILTER_ARM,
};
use crate::codec::tables::{read_tables, spec_read_tables, CodeLengths, Tables};
use crate::codec::window::{window_output, SlidingWindow};
use vstd::arithmetic::power2::*;
use vstd::prelude::*;

verus! {

/// Seed of a block header's checksum.
pub const BLOCK_CHECKSUM_SEED: u8 = 0x5A;

/// A block header.
pub ghost struct Header {
    /// The block starts with tables.
    pub table: bool,
    /// No block follows.
    pub last: bool,
    /// Where the block's bits start.
    pub start: int,
    /// How many bits the block has.
    pub len: int,
}

/// A little-endian number.
pub open spec fn le_number(s: Seq<u8>) -> int
    decreases s.len(),
{
    if s.len() == 0 {
        0
    } else {
        s[0] + 256 * le_number(s.subrange(1, s.len() as int))
    }
}

/// All bytes of `s`, combined into `seed`.
pub open spec fn xor_all(seed: u8, s: Seq<u8>) -> u8
    decreases s.len(),
{
    if s.len() == 0 {
        seed
    } else {
        xor_all(seed, s.drop_last()) ^ s.last()
    }
}

/// Outcome of reading the block header at the first byte at or after `pos`.
#[verifier::opaque]
pub open spec fn spec_read_header(data: Seq<u8>, pos: int) -> Result<Header, CodecError> {
    match spec_read_bytes(data, pos, 1) {
        Err(e) => Err(e),
        Ok((f, p)) => match spec_read_bytes(data, p, 1) {
            Err(e) => Err(e),
            Ok((c, q)) => match spec_read_bytes(data, q, (f[0] / 8 % 4 + 1) as nat) {
                Err(e) => Err(e),
                Ok((size, r)) => {
                    let expected = xor_all(BLOCK_CHECKSUM_SEED ^ f[0], size);
                    if c[0] != expected {
                        Err(CodecError::BlockChecksum { got: c[0], expected })
                    } else if le_number(size) == 0 {
                        Err(CodecError::ZeroLengthBlock)
                    } else {
                        Ok(
                            Header {
                                table: f[0] / 128 == 1,
                                last: f[0] / 64 % 2 == 1,
                                start: r,
                                len: (le_number(size) - 1) * 8 + 1 + f[0] % 8,
                            },
                        )
                    }
                },
            },
        },
    }
}

/// Outcome of decoding symbols from `pos` up to `end`, or until `goal` bytes
/// are there: the decoder's state and the position reached.
pub open spec fn run_symbols(
    t: CodeLengths,
    bits: Seq<bool>,
    pos: int,
    end: int,
    z: Lz,
    n: int,
    goal: int,
) -> Result<(Lz, int), CodecError>
    decreases bits.len() - pos,
{
    if z.out.len() >= goal || pos >= end {
        Ok((z, pos))
    } else {
        match spec_read_symbol(t, bits, pos) {
            Err(e) => Err(e),
            Ok((sym, p)) => {
                proof {
                    lemma_read_symbol_advances(t, bits, pos);
                }
                run_symbols(t, bits, p, end, apply_symbol(z, n, sym), n, goal)
            },
        }
    }
}

/// The tables of the block with header `h`, and where its symbols start.
pub open spec fn block_tables(
    data: Seq<u8>,
    h: Header,
    tabs: Option<CodeLengths>,
    extra_dist: bool,
) -> Result<(CodeLengths, int), CodecError> {
    if h.table {
        spec_read_tables(bits_of(data), h.start, extra_dist)
    } else {
        match tabs {
            None => Err(CodecError::NoTables),
            Some(t) => Ok((t, h.start)),
        }
    }
}

/// What decoding one block leads to.
pub ghost struct BlockEnd {
    pub lz: Lz,
    pub tabs: CodeLengths,
    /// No block follows.
    pub last: bool,
    /// Where the next block is looked for.
    pub next: int,
}

/// Outcome of decoding the block at `pos`, or as much of it as makes `goal`
/// bytes.
pub open spec fn run_block(
    data: Seq<u8>,
    pos: int,
    tabs: Option<CodeLengths>,
    z: Lz,
    n: int,
    extra_dist: bool,
    goal: int,
) -> Result<BlockEnd, CodecError> {
    match spec_read_header(data, pos) {
        Err(e) => Err(e),
        Ok(h) => match block_tables(data, h, tabs, extra_dist) {
            Err(e) => Err(e),
            Ok((t, p)) => match run_symbols(t, bits_of(data), p, h.start + h.len, z, n, goal) {
                Err(e) => Err(e),
                Ok((z2, _)) => Ok(
                    BlockEnd { lz: z2, tabs: t, last: h.last, next: h.start + h.len },
                ),
            },
        },
    }
}

/// Outcome of decoding blocks from `pos` on, until the last block or until
/// `goal` bytes are there.
pub open spec fn run_blocks(
    data: Seq<u8>,
    pos: int,
    tabs: Option<CodeLengths>,
    z: Lz,
    n: int,
    extra_dist: bool,
    goal: int,
) -> Result<(Lz, Option<CodeLengths>), CodecError>
    decreases
            if pos > 8 * data.len() {
                0
            } else {
                8 * data.len() - pos + 1
            },
{
    if z.out.len() >= goal {
        Ok((z, tabs))
    } else {
        match run_block(data, pos, tabs, z, n, extra_dist, goal) {
            Err(e) => Err(e),
            Ok(b) => if b.last {
                Ok((b.lz, Some(b.tabs)))
            } else {
                proof {
                    lemma_header_advances(data, pos);
                }
                run_blocks(data, b.next, Some(b.tabs), b.lz, n, extra_dist, goal)
            },
        }
    }
}

pub proof fn lemma_le_number(s: Seq<u8>)
    ensures
        0 <= le_number(s) < pow2(8 * s.len()),
    decreases s.len(),
{
    lemma2_to64();
    if s.len() > 0 {
        let rest = s.subrange(1, s.len() as int);
        lemma_le_number(rest);
        lemma_pow2_adds(8 * rest.len(), 8);
    }
}

/// A block header takes at least three bytes, all within the data.
pub proof fn lemma_header_advances(data: Seq<u8>, pos: int)
    ensures
        match spec_read_header(data, pos) {
            Ok(h) => pos + 24 <= h.start <= 8 * data.len() && pos <= 8 * data.len() && 1 <= h.len
                <= 0x8_0000_0000 && h.start % 8 == 0,
            Err(_) => true,
        },
{
    reveal(spec_read_header);
    if spec_read_header(data, pos) is Ok {
        let (f, p) = spec_read_bytes(data, pos, 1)->Ok_0;
        let (c, q) = spec_read_bytes(data, p, 1)->Ok_0;
        let (size, r) = spec_read_bytes(data, q, (f[0] / 8 % 4 + 1) as nat)->Ok_0;
        lemma_le_number(size);
        lemma2_to64();
        if size.len() < 4 {
            lemma_pow2_strictly_increases(8 * size.len(), 32);
        }
    }
}

/// The part of `out` that filter `f` covers, the output starting at `base`.
pub open spec fn filter_start(f: FilterRegion, base: int) -> int {
    f.block_start - base
}

pub open spec fn filter_end(f: FilterRegion, base: int, len: int) -> int {
    if filter_start(f, base) + f.block_length < len {
        filter_start(f, base) + f.block_length
    } else {
        len
    }
}

/// Outcome of undoing one filter on `out`.
pub open spec fn apply_region(out: Seq<u8>, f: FilterRegion, base: int) -> Result<
    Seq<u8>,
    CodecError,
> {
    let start = filter_start(f, base);
    let end = filter_end(f, base, out.len() as int);
    if start >= out.len() {
        Ok(out)
    } else if f.filter_type > FILTER_ARM {
        Err(CodecError::UnknownFilter { filter_type: f.filter_type })
    } else {
        Ok(
            out.subrange(0, start) + filter_decoded(
                f.filter_type,
                out.subrange(start, end),
                f.channels,
                start,
            ) + out.subrange(end, out.len() as int),
        )
    }
}

/// Outcome of undoing the first `k` filters, in order.
pub open spec fn apply_regions(
    out: Seq<u8>,
    filters: Seq<FilterRegion>,
    base: int,
    k: nat,
) -> Result<Seq<u8>, CodecError>
    decreases k,
{
    if k == 0 {
        Ok(out)
    } else {
        match apply_regions(out, filters, base, (k - 1) as nat) {
            Err(e) => Err(e),
            Ok(o) => apply_region(o, filters[k - 1], base),
        }
    }
}

/// How many bytes of its output a run gives back.
pub open spec fn given_back(z: Lz, base: int, size: int) -> nat {
    if z.out.len() < base {
        0
    } else if z.out.len() - base < size {
        (z.out.len() - base) as nat
    } else {
        size as nat
    }
}

/// Outcome of decoding a member of `size` bytes from state `z`.
pub open spec fn decode_member(
    data: Seq<u8>,
    size: int,
    tabs: Option<CodeLengths>,
    z: Lz,
    n: int,
    extra_dist: bool,
) -> Result<Seq<u8>, CodecError> {
    let base = z.out.len() as int;
    match run_blocks(data, 0, tabs, z, n, extra_dist, base + size) {
        Err(e) => Err(e),
        Ok((z2, _)) => apply_regions(
            window_output(z2.out, n, base, given_back(z2, base, size)),
            z2.filters,
            base,
            z2.filters.len(),
        ),
    }
}

/// The state of a decoder that has decoded nothing yet.
pub open spec fn fresh_lz() -> Lz {
    Lz { out: Seq::empty(), cache: seq![0u64, 0u64, 0u64, 0u64], last: 0, filters: Seq::empty() }
}

/// Persistent decoder state for solid archive support.
///
/// In a solid archive, the sliding window, distance cache, and Huffman
/// tables carry over between files.
pub struct DecoderState {
    pub core: LzCore,
    pub tables: Option<Tables>,
}

impl DecoderState {
    pub open spec fn wf(&self) -> bool {
        &&& self.core.wf()
        &&& match self.tables {
            Some(t) => t.wf(),
            None => true,
        }
    }

    /// What the decoder remembers, no filters being pending.
    pub open spec fn lz(&self) -> Lz {
        Lz { filters: Seq::empty(), ..self.core@ }
    }

    /// The tables in force.
    pub open spec fn tabs(&self) -> Option<CodeLengths> {
        match self.tables {
            Some(t) => Some(t@),
            None => None,
        }
    }

    /// A decoder with an empty window of `dict_size` bytes.
    pub fn new(dict_size: usize) -> (s: DecoderState)
        requires
            is_pow2(dict_size as int),
        ensures
            s.wf(),
            s.lz() == fresh_lz(),
            s.tabs() is None,
            s.core.window.capacity() == dict_size,
    {
        let s = DecoderState {
            core: LzCore {
                window: SlidingWindow::new(dict_size),
                dist_cache: [0, 0, 0, 0],
                last_length: 0,
                filters: Vec::new(),
            },
            tables: None,
        };
        assert(s.lz().cache =~= fresh_lz().cache);
        s
    }
}

/// A block header, as far as decoding goes by it.
pub struct BlockHeader {
    pub table: bool,
    pub last: bool,
    pub len: u64,
}

/// Read a block header.
pub(crate) fn read_header(reader: &mut BitReader<'_>) -> (r: Result<BlockHeader, CodecError>)
    requires
        old(reader).wf(),
    ensures
        final(reader).wf(),
        final(reader).bytes() == old(reader).bytes(),
        match spec_read_header(old(reader).bytes(), old(reader).pos()) {
            Ok(h) => r is Ok && r->Ok_0.table == h.table && r->Ok_0.last == h.last && r->Ok_0.len
                == h.len && final(reader).pos() == h.start,
            Err(e) => r is Err && r->Err_0 == e,
        },
{
    reveal(spec_read_header);
    let flags: u8 = match reader.read_byte() {
        Ok(v) => v,
        Err(e) => {
            return Err(e);
        },
    };
    let checksum: u8 = match reader.read_byte() {
        Ok(v) => v,
        Err(e) => {
            return Err(e);
        },
    };
    let count: usize = (flags / 8 % 4) as usize + 1;
    let size_bytes: Vec<u8> = match reader.read_bytes(count) {
        Ok(v) => v,
        Err(e) => {
            return Err(e);
        },
    };
    let ghost sz = size_bytes@;
    let mut expected: u8 = BLOCK_CHECKSUM_SEED ^ flags;
    let mut i: usize = 0;
    assert(sz.subrange(0, 0) =~= Seq::<u8>::empty());
    while i < count
        invariant
            i <= count,
            sz == size_bytes@,
            sz.len() == count,
            expected == xor_all(BLOCK_CHECKSUM_SEED ^ flags, sz.subrange(0, i as int)),
        decreases count - i,
    {
        expected = expected ^ size_bytes[i];
        proof {
            let s = sz.subrange(0, i + 1);
            assert(s.drop_last() =~= sz.subrange(0, i as int));
            assert(s.last() == sz[i as int]);
        }
        i = i + 1;
    }
    assert(sz.subrange(0, count as int) =~= sz);
    let mut size: u64 = 0;
    let mut j: usize = count;
    assert(sz.subrange(count as int, count as int) =~= Seq::<u8>::empty());
    while j > 0
        invariant
            j <= count <= 4,
            sz == size_bytes@,
            sz.len() == count,
            size == le_number(sz.subrange(j as int, count as int)),
        decreases j,
    {
        j = j - 1;
        proof {
            let s = sz.subrange(j as int, count as int);
            assert(s.subrange(1, s.len() as int) =~= sz.subrange(j + 1, count as int));
            lemma_le_number(s);
            lemma2_to64();
            if s.len() < 4 {
                lemma_pow2_strictly_increases(8 * s.len(), 32);
            }
        }
        size = size_bytes[j] as u64 + 256 * size;
    }
    proof {
        assert(sz.subrange(0, count as int) =~= sz);
        lemma_le_number(sz);
        lemma2_to64();
        if sz.len() < 4 {
            lemma_pow2_strictly_increases(8 * sz.len(), 32);
        }
    }
    if checksum != expected {
        return Err(CodecError::BlockChecksum { got: checksum, expected });
    }
    if size == 0 {
        return Err(CodecError::ZeroLengthBlock);
    }
    Ok(
        BlockHeader {
            table: flags / 128 == 1,
            last: flags / 64 % 2 == 1,
            len: (size - 1) * 8 + 1 + (flags % 8) as u64,
        },
    )
}

/// The position of the next bit, as one number.
pub(crate) fn bit_offset(reader: &BitReader<'_>) -> (p: u64)
    requires
        reader.wf(),
    ensures
        p == reader.pos(),
{
    reader.byte_position() * 8 + reader.bit_position() as u64
}

/// Every filter starts where the output starts or later.
pub open spec fn filters_after(filters: Seq<FilterRegion>, base: int) -> bool {
    forall|i: int|
        0 <= i < filters.len() ==> (#[trigger] filters[i]).block_start >= base
            && filters[i].block_length <= u32::MAX
}

/// Decode symbols up to the block's end, or until `goal` bytes are there.
fn decode_symbols(
    reader: &mut BitReader<'_>,
    tables: &Tables,
    core: &mut LzCore,
    end: u64,
    goal: u64,
    Ghost(base): Ghost<int>,
) -> (r: Result<(), CodecError>)
    requires
        old(reader).wf(),
        tables.wf(),
        old(core).wf(),
        goal + 0x1_0000_2000 <= u64::MAX,
        base <= old(core)@.out.len(),
        filters_after(old(core)@.filters, base),
    ensures
        filters_after(final(core)@.filters, base),
        old(core)@.out.len() <= final(core)@.out.len(),
        final(core)@.out.len() < goal + 4100 || final(core)@.out.len() == old(core)@.out.len(),
        final(reader).wf(),
        final(reader).bytes() == old(reader).bytes(),
        final(core).wf(),
        final(core).window.capacity() == old(core).window.capacity(),
        match run_symbols(
            tables@,
            old(reader).bits(),
            old(reader).pos(),
            end as int,
            old(core)@,
            old(core).window.capacity(),
            goal as int,
        ) {
            Ok(v) => r is Ok && final(core)@ == v.0,
            Err(e) => r is Err && r->Err_0 == e,
        },
{
    let ghost bits = reader.bits();
    let ghost n = core.window.capacity();
    while core.window.total_written() < goal && bit_offset(reader) < end
        invariant
            reader.wf(),
            reader.bytes() == old(reader).bytes(),
            bits == reader.bits(),
            tables.wf(),
            core.wf(),
            core.window.capacity() == n,
            n == old(core).window.capacity(),
            goal + 0x1_0000_2000 <= u64::MAX,
            base <= old(core)@.out.len() <= core@.out.len(),
            core@.out.len() < goal + 4100 || core@.out.len() == old(core)@.out.len(),
            filters_after(core@.filters, base),
            run_symbols(
                tables@,
                old(reader).bits(),
                old(reader).pos(),
                end as int,
                old(core)@,
                n,
                goal as int,
            ) == run_symbols(
                tables@,
                bits,
                reader.pos(),
                end as int,
                core@,
                n,
                goal as int,
            ),
        decreases bits.len() - reader.pos(),
    {
        proof {
            lemma_read_symbol_advances(tables@, bits, reader.pos());
        }
        let sym: Symbol = match read_symbol(tables, reader) {
            Ok(v) => v,
            Err(e) => {
                return Err(e);
            },
        };
        proof {
            lemma_apply_symbol(core@, n, sym);
        }
        core.apply(sym);
    }
    Ok(())
}

/// Undo the filters on a member's output.
fn undo_filters(output: Vec<u8>, filters: &Vec<FilterRegion>, base: u64) -> (r: Result<
    Vec<u8>,
    CodecError,
>)
    requires
        filters_after(filters@, base as int),
    ensures
        match apply_regions(output@, filters@, base as int, filters@.len()) {
            Ok(v) => r is Ok && r->Ok_0@ == v,
            Err(e) => r is Err && r->Err_0 == e,
        },
{
    let mut out: Vec<u8> = output;
    let ghost given = out@;
    let m: usize = filters.len();
    let mut k: usize = 0;
    while k < m
        invariant
            k <= m,
            m == filters@.len(),
            out@.len() == given.len(),
            filters_after(filters@, base as int),
            apply_regions(given, filters@, base as int, k as nat) == Ok::<Seq<u8>, CodecError>(
                out@,
            ),
            given == output@,
        decreases m - k,
    {
        let f: FilterRegion = filters[k];
        let start: u64 = f.block_start - base;
        let len: usize = out.len();
        let ghost before = out@;
        if start < len as u64 {
            let s: usize = start as usize;
            let room: usize = len - s;
            let e: usize = if f.block_length < room as u64 {
                s + f.block_length as usize
            } else {
                len
            };
            let region = vstd::slice::slice_subrange(out.as_slice(), s, e);
            proof {
                lemma_filter_len(f.filter_type, region@, f.channels, start as int);
            }
            let filtered: Vec<u8> = match apply_filter_decode(
                f.filter_type,
                region,
                f.channels,
                start,
            ) {
                Ok(v) => v,
                Err(err) => {
                    proof {
                        lemma_regions_err(given, filters@, base as int, (k + 1) as nat);
                    }
                    return Err(err);
                },
            };
            let mut next: Vec<u8> = Vec::with_capacity(len);
            next.extend_from_slice(vstd::slice::slice_subrange(out.as_slice(), 0, s));
            next.extend_from_slice(filtered.as_slice());
            next.extend_from_slice(vstd::slice::slice_subrange(out.as_slice(), e, len));
            out = next;
            assert(out@ =~= before.subrange(0, s as int) + filtered@ + before.subrange(
                e as int,
                len as int,
            ));
            assert(apply_region(before, f, base as int) == Ok::<Seq<u8>, CodecError>(out@));
        }
        k = k + 1;
    }
    Ok(out)
}

/// Once a filter fails, the whole fails.
proof fn lemma_regions_err(out: Seq<u8>, filters: Seq<FilterRegion>, base: int, k: nat)
    requires
        k <= filters.len(),
        apply_regions(out, filters, base, k) is Err,
    ensures
        apply_regions(out, filters, base, filters.len()) == apply_regions(out, filters, base, k),
    decreases filters.len() - k,
{
    if k < filters.len() {
        lemma_regions_err(out, filters, base, k + 1);
    }
}


/// Decode one block, or as much of it as makes `goal` bytes. Tells whether
/// it was the last.
fn decode_block(
    reader: &mut BitReader<'_>,
    state: &mut DecoderState,
    extra_dist: bool,
    goal: u64,
    Ghost(base): Ghost<int>,
) -> (r: Result<bool, CodecError>)
    requires
        old(reader).wf(),
        old(reader).pos() >= 0,
        old(state).wf(),
        goal + 0x1_0000_2000 <= u64::MAX,
        base <= old(state).core@.out.len(),
        filters_after(old(state).core@.filters, base),
    ensures
        final(reader).wf(),
        final(reader).bytes() == old(reader).bytes(),
        final(state).wf(),
        final(state).core.window.capacity() == old(state).core.window.capacity(),
        old(state).core@.out.len() <= final(state).core@.out.len(),
        final(state).core@.out.len() < goal + 4100 || final(state).core@.out.len() == old(
            state,
        ).core@.out.len(),
        match run_block(
            old(reader).bytes(),
            old(reader).pos(),
            old(state).tabs(),
            old(state).core@,
            old(state).core.window.capacity(),
            extra_dist,
            goal as int,
        ) {
            Ok(b) => r == Ok::<bool, CodecError>(b.last) && final(state).core@ == b.lz
                && final(state).tabs() == Some(b.tabs) && final(reader).pos() == b.next
                && filters_after(b.lz.filters, base),
            Err(e) => r == Err::<bool, CodecError>(e),
        },
{
    let ghost data = reader.bytes();
    proof {
        lemma_header_advances(data, reader.pos());
        lemma_bits_of_len(data);
        reader.lemma_bounds();
    }
    let h: BlockHeader = match read_header(reader) {
        Ok(v) => v,
        Err(e) => {
            return Err(e);
        },
    };
    let start: u64 = bit_offset(reader);
    let end: u64 = start + h.len;
    if h.table {
        let t: Tables = match read_tables(reader, extra_dist) {
            Ok(v) => v,
            Err(e) => {
                return Err(e);
            },
        };
        state.tables = Some(t);
    }
    match &state.tables {
        None => {
            return Err(CodecError::NoTables);
        },
        Some(tables) => {
            match decode_symbols(reader, tables, &mut state.core, end, goal, Ghost(base)) {
                Ok(_) => {},
                Err(e) => {
                    return Err(e);
                },
            }
        },
    }
    reader.set_position(end / 8, (end % 8) as u8);
    Ok(h.last)
}

/// Decode blocks until the last one, or until `goal` bytes are there.
fn decode_blocks(
    reader: &mut BitReader<'_>,
    state: &mut DecoderState,
    extra_dist: bool,
    goal: u64,
) -> (r: Result<(), CodecError>)
    requires
        old(reader).wf(),
        old(reader).pos() == 0,
        old(state).wf(),
        goal + 0x1_0000_2000 <= u64::MAX,
        old(state).core@.filters.len() == 0,
    ensures
        final(state).wf(),
        final(state).core.window.capacity() == old(state).core.window.capacity(),
        match run_blocks(
            old(reader).bytes(),
            0,
            old(state).tabs(),
            old(state).core@,
            old(state).core.window.capacity(),
            extra_dist,
            goal as int,
        ) {
            Ok(v) => r is Ok && final(state).core@ == v.0 && final(state).tabs() == v.1
                && filters_after(v.0.filters, old(state).core@.out.len() as int),
            Err(e) => r is Err && r->Err_0 == e,
        },
        old(state).core@.out.len() <= final(state).core@.out.len(),
{
    let ghost data = reader.bytes();
    let ghost n = state.core.window.capacity();
    let ghost base = state.core@.out.len() as int;
    let ghost run = run_blocks(data, 0, state.tabs(), state.core@, n, extra_dist, goal as int);
    while state.core.window.total_written() < goal
        invariant
            reader.wf(),
            reader.bytes() == data,
            reader.pos() >= 0,
            state.wf(),
            state.core.window.capacity() == n,
            n == old(state).core.window.capacity(),
            goal + 0x1_0000_2000 <= u64::MAX,
            base == old(state).core@.out.len(),
            base <= state.core@.out.len(),
            filters_after(state.core@.filters, base),
            data == old(reader).bytes(),
            run == run_blocks(
                old(reader).bytes(),
                0,
                old(state).tabs(),
                old(state).core@,
                n,
                extra_dist,
                goal as int,
            ),
            run == run_blocks(
                data,
                reader.pos(),
                state.tabs(),
                state.core@,
                n,
                extra_dist,
                goal as int,
            ),
        decreases
                if reader.pos() > 8 * data.len() {
                    0
                } else {
                    8 * data.len() - reader.pos() + 1
                },
    {
        proof {
            lemma_header_advances(data, reader.pos());
        }
        match decode_block(reader, state, extra_dist, goal, Ghost(base)) {
            Ok(last) => {
                if last {
                    return Ok(());
                }
            },
            Err(e) => {
                return Err(e);
            },
        }
    }
    Ok(())
}

/// Decode one member with the decoder's state.
pub fn decode_inner(
    data: &[u8],
    unpacked_size: u64,
    state: &mut DecoderState,
    extra_dist: bool,
) -> (r: Result<Vec<u8>, CodecError>)
    requires
        data@.len() < 0x1000_0000_0000_0000,
        old(state).wf(),
        old(state).lz().out.len() + unpacked_size + 0x1_0000_2000 <= u64::MAX,
        output_fits(
            data@,
            unpacked_size as int,
            old(state).tabs(),
            old(state).lz(),
            old(state).core.window.capacity(),
            extra_dist,
        ),
    ensures
        final(state).wf(),
        final(state).core.window.capacity() == old(state).core.window.capacity(),
        match decode_member(
            data@,
            unpacked_size as int,
            old(state).tabs(),
            old(state).lz(),
            old(state).core.window.capacity(),
            extra_dist,
        ) {
            Ok(v) => r is Ok && r->Ok_0@ == v,
            Err(e) => r is Err && r->Err_0 == e,
        },
        state_after(
            data@,
            unpacked_size as int,
            old(state).tabs(),
            old(state).lz(),
            old(state).core.window.capacity(),
            extra_dist,
            final(state).tabs(),
            final(state).lz(),
        ),
{
    let base: u64 = state.core.window.total_written();
    state.core.filters.clear();
    assert(state.core@.filters =~= Seq::<FilterRegion>::empty());
    assert(state.core@ == old(state).lz());
    let mut reader = BitReader::new(data);
    match decode_blocks(&mut reader, state, extra_dist, base + unpacked_size) {
        Ok(_) => {},
        Err(e) => {
            return Err(e);
        },
    }
    let produced: u64 = state.core.window.total_written() - base;
    let written: u64 = if produced < unpacked_size {
        produced
    } else {
        unpacked_size
    };
    proof {
        state.core.window.lemma_capacity();
    }
    let n: usize = state.core.window.size();
    let output: Vec<u8> = state.core.window.get_output(base, written as usize);
    undo_filters(output, &state.core.filters, base)
}

/// A window of `n` bytes holds what decoding the member gives back.
pub open spec fn output_fits(
    data: Seq<u8>,
    size: int,
    tabs: Option<CodeLengths>,
    z: Lz,
    n: int,
    extra_dist: bool,
) -> bool {
    match run_blocks(data, 0, tabs, z, n, extra_dist, z.out.len() + size) {
        Ok(v) => given_back(v.0, z.out.len() as int, size) <= n,
        Err(_) => true,
    }
}

/// A member that is announced no larger than the window fits it.
pub proof fn lemma_output_fits(
    data: Seq<u8>,
    size: int,
    tabs: Option<CodeLengths>,
    z: Lz,
    n: int,
    extra_dist: bool,
)
    requires
        0 <= size <= n,
    ensures
        output_fits(data, size, tabs, z, n, extra_dist),
{
}

/// Where the member's blocks decode, the decoder's state afterwards is the
/// one they lead to.
pub open spec fn state_after(
    data: Seq<u8>,
    size: int,
    tabs: Option<CodeLengths>,
    z: Lz,
    n: int,
    extra_dist: bool,
    tabs_after: Option<CodeLengths>,
    z_after: Lz,
) -> bool {
    match run_blocks(data, 0, tabs, z, n, extra_dist, z.out.len() + size) {
        Ok(v) => tabs_after == v.1 && z_after == (Lz { filters: Seq::empty(), ..v.0 }),
        Err(_) => true,
    }
}

} // verus!
