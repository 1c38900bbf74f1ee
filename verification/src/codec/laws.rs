//! What the codec promises of streams as they are written, whoever wrote them.

use crate::codec::bits::{bits_at, bits_of, byte_align, lemma_bits_at_shift};
use crate::codec::block::{
    all_coded, apply_all, block_spells, header_bytes, lemma_block_runs_at, lemma_header_reads,
    lemma_parts_stand, lemma_run_spelled, short_of, stands_at, symbols_bits,
};
use crate::codec::decode::{
    apply_region, decode_member, fresh_lz, run_block, run_blocks, spec_read_header, state_after,
    Header,
};
use crate::codec::encode::spec_level_params;
use crate::codec::error::CodecError;
use crate::codec::filters::{filter_decoded, lemma_filter_len};
use crate::codec::lz::{FilterRegion, Lz};
use crate::codec::rar50::{pow2_from, spec_dict_size, standalone_result, standalone_window};
use crate::codec::symbols::{codes_fit, Symbol};
use crate::codec::tables::CodeLengths;
use crate::codec::window::lemma_window_output;
use vstd::arithmetic::power2::*;
use vstd::prelude::*;

verus! {

/// `b` is a block without tables: its header has the table bit clear, and its
/// body spells symbols in codes `t` that an earlier block brought.
pub open spec fn block_continues(
    b: Seq<u8>,
    body: Seq<u8>,
    t: CodeLengths,
    syms: Seq<Symbol>,
    last: bool,
) -> bool {
    let w = symbols_bits(t, syms);
    &&& 0 < body.len() <= 0xFF_FFFF
    &&& syms.len() > 0
    &&& codes_fit(t)
    &&& all_coded(t, syms)
    &&& bits_at(bits_of(body), 0, w)
    &&& (body.len() - 1) * 8 < w.len() <= body.len() * 8
    &&& b == header_bytes(body.len() as int, w.len() as int, last, false) + body
    &&& b[0] < 128
}

/// A block without tables is decoded with the tables in force, and leaves them
/// in force.
#[verifier::rlimit(60)]
#[verifier::spinoff_prover]
pub proof fn lemma_block_keeps_tables(
    b: Seq<u8>,
    body: Seq<u8>,
    t: CodeLengths,
    syms: Seq<Symbol>,
    last: bool,
    extra_dist: bool,
    data: Seq<u8>,
    pos: int,
    z: Lz,
    n: int,
    goal: int,
)
    requires
        block_continues(b, body, t, syms, last),
        stands_at(data, pos, b),
        short_of(z, n, syms, goal),
    ensures
        ({
            let r = run_block(data, pos, Some(t), z, n, extra_dist, goal);
            &&& r is Ok
            &&& r->Ok_0.lz == apply_all(z, n, syms)
            &&& r->Ok_0.tabs == t
            &&& r->Ok_0.last == last
            &&& byte_align(r->Ok_0.next) == byte_align(pos) + 8 * b.len()
        }),
{
    let w = symbols_bits(t, syms);
    let size = body.len() as int;
    let h = header_bytes(size, w.len() as int, last, false);
    let start = byte_align(pos) + 8 * h.len();
    let bits = bits_of(data);
    let end = start + w.len();
    let head = Header { table: false, last, start, len: w.len() as int };
    lemma_parts_stand(data, pos, h, body);
    lemma_header_reads(data, pos, size, w.len() as int, last, false);
    assert(spec_read_header(data, pos) == Ok::<Header, CodecError>(head));
    lemma_bits_at_shift(data, byte_align(pos) / 8 + h.len(), body, 0, w);
    assert(bits_at(bits, start, w));
    lemma_run_spelled(t, bits, start, end, z, n, goal, syms);
    assert(byte_align(end) == start + 8 * size);
}

/// One block of a stream that brings tables once.
pub ghost struct Continued {
    pub b: Seq<u8>,
    pub body: Seq<u8>,
    pub syms: Seq<Symbol>,
}

/// The bytes of blocks.
pub open spec fn continued_bytes(blocks: Seq<Continued>) -> Seq<u8>
    decreases blocks.len(),
{
    if blocks.len() == 0 {
        Seq::empty()
    } else {
        blocks[0].b + continued_bytes(blocks.skip(1))
    }
}

/// The symbols of blocks.
pub open spec fn continued_symbols(blocks: Seq<Continued>) -> Seq<Symbol>
    decreases blocks.len(),
{
    if blocks.len() == 0 {
        Seq::empty()
    } else {
        blocks[0].syms + continued_symbols(blocks.skip(1))
    }
}

/// Blocks without tables, the last of them marked so.
pub open spec fn all_continue(blocks: Seq<Continued>, t: CodeLengths) -> bool {
    forall|i: int|
        0 <= i < blocks.len() ==> block_continues(
            (#[trigger] blocks[i]).b,
            blocks[i].body,
            t,
            blocks[i].syms,
            i == blocks.len() - 1,
        )
}

proof fn lemma_short_front(z: Lz, n: int, a: Seq<Symbol>, b: Seq<Symbol>, goal: int)
    requires
        short_of(z, n, a + b, goal),
    ensures
        short_of(z, n, a, goal),
        short_of(apply_all(z, n, a), n, b, goal),
        b.len() > 0 ==> apply_all(z, n, a).out.len() < goal,
{
    let s = a + b;
    assert forall|k: int| 0 <= k < a.len() implies (#[trigger] apply_all(
        z,
        n,
        a.subrange(0, k),
    )).out.len() < goal by {
        assert(s.subrange(0, k) =~= a.subrange(0, k));
        assert(apply_all(z, n, s.subrange(0, k)).out.len() < goal);
    }
    assert forall|k: int| 0 <= k < b.len() implies (#[trigger] apply_all(
        apply_all(z, n, a),
        n,
        b.subrange(0, k),
    )).out.len() < goal by {
        assert(s.subrange(0, a.len() + k) =~= a + b.subrange(0, k));
        crate::codec::block::lemma_apply_concat(z, n, a, b.subrange(0, k));
        assert(apply_all(z, n, s.subrange(0, a.len() + k)).out.len() < goal);
    }
    if b.len() > 0 {
        assert(b.subrange(0, 0) =~= Seq::<Symbol>::empty());
        assert(apply_all(apply_all(z, n, a), n, b.subrange(0, 0)).out.len() < goal);
    }
}

proof fn lemma_stands_split(data: Seq<u8>, pos: int, next: int, a: Seq<u8>, b: Seq<u8>)
    requires
        stands_at(data, pos, a + b),
        byte_align(next) == byte_align(pos) + 8 * a.len(),
        byte_align(pos) % 8 == 0,
    ensures
        stands_at(data, pos, a),
        stands_at(data, next, b),
{
    lemma_parts_stand(data, pos, a, b);
}

/// Blocks without tables are decoded one after the other with the tables in
/// force: those that an earlier block of the member brought, or an earlier
/// member of a solid chain.
pub proof fn lemma_blocks_keep_tables(
    blocks: Seq<Continued>,
    t: CodeLengths,
    extra_dist: bool,
    data: Seq<u8>,
    pos: int,
    z: Lz,
    n: int,
    goal: int,
)
    requires
        blocks.len() > 0,
        all_continue(blocks, t),
        stands_at(data, pos, continued_bytes(blocks)),
        short_of(z, n, continued_symbols(blocks), goal),
    ensures
        run_blocks(data, pos, Some(t), z, n, extra_dist, goal) == Ok::<
            (Lz, Option<CodeLengths>),
            CodecError,
        >((apply_all(z, n, continued_symbols(blocks)), Some(t))),
    decreases blocks.len(),
{
    let first = blocks[0];
    let rest = blocks.skip(1);
    lemma_short_front(z, n, first.syms, continued_symbols(rest), goal);
    assert(first.syms.subrange(0, 0) =~= Seq::<Symbol>::empty());
    assert(apply_all(z, n, first.syms.subrange(0, 0)).out.len() < goal);
    lemma_parts_stand(data, pos, first.b, continued_bytes(rest));
    lemma_block_keeps_tables(
        first.b,
        first.body,
        t,
        first.syms,
        blocks.len() == 1,
        extra_dist,
        data,
        pos,
        z,
        n,
        goal,
    );
    let r = run_block(data, pos, Some(t), z, n, extra_dist, goal)->Ok_0;
    crate::codec::decode::lemma_header_advances(data, pos);
    if blocks.len() == 1 {
        assert(rest =~= Seq::<Continued>::empty());
        assert(continued_symbols(blocks) =~= first.syms);
    } else {
        assert forall|i: int| 0 <= i < rest.len() implies block_continues(
            (#[trigger] rest[i]).b,
            rest[i].body,
            t,
            rest[i].syms,
            i == rest.len() - 1,
        ) by {
            assert(rest[i] == blocks[i + 1]);
        }
        lemma_stands_split(data, pos, r.next, first.b, continued_bytes(rest));
        lemma_blocks_keep_tables(rest, t, extra_dist, data, r.next, r.lz, n, goal);
        crate::codec::block::lemma_apply_concat(z, n, first.syms, continued_symbols(rest));
    }
}

/// A stream that brings tables in its first block and spells all its blocks in
/// them decodes to what all its symbols say.
pub proof fn lemma_tables_serve_later_blocks(
    b: Seq<u8>,
    body: Seq<u8>,
    tw: Seq<bool>,
    t: CodeLengths,
    syms: Seq<Symbol>,
    blocks: Seq<Continued>,
    extra_dist: bool,
    tabs: Option<CodeLengths>,
    z: Lz,
    n: int,
    goal: int,
)
    requires
        block_spells(b, body, tw, t, syms, false, extra_dist),
        syms.len() > 0,
        blocks.len() > 0,
        all_continue(blocks, t),
        short_of(z, n, syms + continued_symbols(blocks), goal),
    ensures
        run_blocks(b + continued_bytes(blocks), 0, tabs, z, n, extra_dist, goal) == Ok::<
            (Lz, Option<CodeLengths>),
            CodecError,
        >((apply_all(z, n, syms + continued_symbols(blocks)), Some(t))),
{
    let data = b + continued_bytes(blocks);
    assert(data.subrange(0, data.len() as int) =~= data);
    assert(stands_at(data, 0, data));
    lemma_parts_stand(data, 0, b, continued_bytes(blocks));
    lemma_short_front(z, n, syms, continued_symbols(blocks), goal);
    assert(syms.subrange(0, 0) =~= Seq::<Symbol>::empty());
    assert(apply_all(z, n, syms.subrange(0, 0)).out.len() < goal);
    lemma_block_runs_at(b, body, tw, t, syms, false, extra_dist, data, 0, tabs, z, n, goal);
    let r = run_block(data, 0, tabs, z, n, extra_dist, goal)->Ok_0;
    crate::codec::decode::lemma_header_advances(data, 0);
    lemma_stands_split(data, 0, r.next, b, continued_bytes(blocks));
    lemma_blocks_keep_tables(blocks, t, extra_dist, data, r.next, r.lz, n, goal);
    crate::codec::block::lemma_apply_concat(z, n, syms, continued_symbols(blocks));
}

/// Such a stream, decoded by itself, gives the output of all its symbols.
pub proof fn lemma_standalone_tables_serve(
    b: Seq<u8>,
    body: Seq<u8>,
    tw: Seq<bool>,
    t: CodeLengths,
    syms: Seq<Symbol>,
    blocks: Seq<Continued>,
    size: u64,
    dict_size_log: u8,
    dict_size_bytes: Option<u64>,
    extra_dist: bool,
)
    requires
        block_spells(b, body, tw, t, syms, false, extra_dist),
        syms.len() > 0,
        blocks.len() > 0,
        all_continue(blocks, t),
        standalone_window(dict_size_log, dict_size_bytes, size) is Ok,
        ({
            let n = standalone_window(dict_size_log, dict_size_bytes, size)->Ok_0;
            let z = apply_all(fresh_lz(), n, syms + continued_symbols(blocks));
            &&& short_of(fresh_lz(), n, syms + continued_symbols(blocks), size as int)
            &&& z.out.len() == size
            &&& z.filters.len() == 0
            &&& size <= n
            &&& 0 < n
        }),
    ensures
        ({
            let n = standalone_window(dict_size_log, dict_size_bytes, size)->Ok_0;
            standalone_result(
                b + continued_bytes(blocks),
                size,
                dict_size_log,
                dict_size_bytes,
                extra_dist,
            ) == Ok::<Seq<u8>, CodecError>(
                apply_all(fresh_lz(), n, syms + continued_symbols(blocks)).out,
            )
        }),
{
    let n = standalone_window(dict_size_log, dict_size_bytes, size)->Ok_0;
    let z = apply_all(fresh_lz(), n, syms + continued_symbols(blocks));
    lemma_tables_serve_later_blocks(
        b,
        body,
        tw,
        t,
        syms,
        blocks,
        extra_dist,
        None,
        fresh_lz(),
        n,
        size as int,
    );
    lemma_window_output(z.out, n, 0, size as nat);
    assert(z.out.subrange(0, size as int) =~= z.out);
}

/// In a solid chain the tables that a member brought serve the next one, whose
/// blocks need not bring any.
pub proof fn lemma_tables_serve_next_member(
    b: Seq<u8>,
    body: Seq<u8>,
    tw: Seq<bool>,
    t: CodeLengths,
    syms: Seq<Symbol>,
    size: int,
    blocks: Seq<Continued>,
    more: int,
    extra_dist: bool,
    tabs: Option<CodeLengths>,
    z: Lz,
    n: int,
    tabs_after: Option<CodeLengths>,
    z_after: Lz,
)
    requires
        block_spells(b, body, tw, t, syms, true, extra_dist),
        syms.len() > 0,
        short_of(z, n, syms, z.out.len() + size),
        state_after(b, size, tabs, z, n, extra_dist, tabs_after, z_after),
        blocks.len() > 0,
        all_continue(blocks, t),
        short_of(z_after, n, continued_symbols(blocks), z_after.out.len() + more),
        ({
            let end = apply_all(z_after, n, continued_symbols(blocks));
            &&& end.out.len() == z_after.out.len() + more
            &&& end.filters.len() == 0
        }),
        0 <= more <= n,
        0 < n,
    ensures
        z_after.out == apply_all(z, n, syms).out,
        ({
            let end = apply_all(z_after, n, continued_symbols(blocks));
            decode_member(
                continued_bytes(blocks),
                more,
                tabs_after,
                z_after,
                n,
                extra_dist,
            ) == Ok::<Seq<u8>, CodecError>(
                end.out.subrange(z_after.out.len() as int, end.out.len() as int),
            )
        }),
{
    assert(b.subrange(0, b.len() as int) =~= b);
    assert(stands_at(b, 0, b));
    assert(syms.subrange(0, 0) =~= Seq::<Symbol>::empty());
    let goal = z.out.len() + size;
    assert(apply_all(z, n, syms.subrange(0, 0)).out.len() < goal);
    lemma_block_runs_at(b, body, tw, t, syms, true, extra_dist, b, 0, tabs, z, n, goal);
    assert(tabs_after == Some(t));
    let data = continued_bytes(blocks);
    assert(data.subrange(0, data.len() as int) =~= data);
    let base = z_after.out.len() as int;
    lemma_blocks_keep_tables(blocks, t, extra_dist, data, 0, z_after, n, base + more);
    let end = apply_all(z_after, n, continued_symbols(blocks));
    lemma_window_output(end.out, n, base, more as nat);
}

/// The block marked as the last ends the stream, whatever follows it and
/// however much output is still wanted.
pub proof fn lemma_last_block_ends(
    b: Seq<u8>,
    body: Seq<u8>,
    tw: Seq<bool>,
    t: CodeLengths,
    syms: Seq<Symbol>,
    junk: Seq<u8>,
    extra_dist: bool,
    tabs: Option<CodeLengths>,
    z: Lz,
    n: int,
    goal: int,
)
    requires
        block_spells(b, body, tw, t, syms, true, extra_dist),
        syms.len() > 0,
        short_of(z, n, syms, goal),
    ensures
        run_blocks(b + junk, 0, tabs, z, n, extra_dist, goal) == Ok::<
            (Lz, Option<CodeLengths>),
            CodecError,
        >((apply_all(z, n, syms), Some(t))),
{
    let data = b + junk;
    assert(data.subrange(0, b.len() as int) =~= b);
    assert(stands_at(data, 0, b));
    assert(syms.subrange(0, 0) =~= Seq::<Symbol>::empty());
    assert(apply_all(z, n, syms.subrange(0, 0)).out.len() < goal);
    lemma_block_runs_at(b, body, tw, t, syms, true, extra_dist, data, 0, tabs, z, n, goal);
}

/// Nothing is decoded of a stream whose first block brings no tables, where
/// none are in force: the error says so.
pub proof fn lemma_tables_are_needed(
    data: Seq<u8>,
    pos: int,
    extra_dist: bool,
    z: Lz,
    n: int,
    goal: int,
)
    requires
        z.out.len() < goal,
        spec_read_header(data, pos) is Ok,
        !spec_read_header(data, pos)->Ok_0.table,
    ensures
        run_blocks(data, pos, None, z, n, extra_dist, goal) == Err::<
            (Lz, Option<CodeLengths>),
            CodecError,
        >(CodecError::NoTables),
{
}

/// Undoing a filter replaces its region, counted from the member's start, and
/// nothing else.
pub proof fn lemma_region_law(out: Seq<u8>, f: FilterRegion, base: int)
    requires
        base <= f.block_start,
        f.block_start + f.block_length <= base + out.len(),
        f.filter_type <= 3,
        f.block_length > 0,
    ensures
        ({
            let from = f.block_start - base;
            let to = from + f.block_length;
            let r = apply_region(out, f, base);
            &&& r is Ok
            &&& r->Ok_0.len() == out.len()
            &&& r->Ok_0.subrange(0, from) == out.subrange(0, from)
            &&& r->Ok_0.subrange(from, to) == filter_decoded(
                f.filter_type,
                out.subrange(from, to),
                f.channels,
                from,
            )
            &&& r->Ok_0.skip(to) == out.skip(to)
        }),
{
    let from = f.block_start - base;
    let to = from + f.block_length;
    lemma_filter_len(f.filter_type, out.subrange(from, to), f.channels, from);
    let r = apply_region(out, f, base)->Ok_0;
    assert(r.subrange(0, from) =~= out.subrange(0, from));
    assert(r.subrange(from, to) =~= filter_decoded(
        f.filter_type,
        out.subrange(from, to),
        f.channels,
        from,
    ));
    assert(r.skip(to) =~= out.skip(to));
}

proof fn lemma_power_between(p: int, b: int, k: nat)
    requires
        p == pow2(k),
        p < 2 * b || p == 1,
    ensures
        exists|e: nat| pow2_from(p, b) == #[trigger] pow2(e),
        b <= pow2_from(p, b),
        pow2_from(p, b) < 2 * b || pow2_from(p, b) == 1,
    decreases
            if p < b {
                b - p
            } else {
                0
            },
{
    lemma_pow2_pos(k);
    if p < b {
        lemma_pow2_unfold(k + 1);
        lemma_power_between(2 * p, b, k + 1);
    }
}

/// A dictionary is the power of two at or next above 2^log times 128 KiB, or
/// the number of bytes given; logs above 15 are refused.
pub proof fn lemma_dictionary_law(dict_size_log: u8, dict_size_bytes: Option<u64>)
    ensures
        ({
            let asked = match dict_size_bytes {
                Some(b) => b as int,
                None => (0x2_0000 * pow2(dict_size_log as nat)) as int,
            };
            match spec_dict_size(dict_size_log, dict_size_bytes) {
                Ok(n) => {
                    &&& dict_size_bytes is None ==> dict_size_log <= 15
                    &&& asked <= n
                    &&& n < 2 * asked || n == 1
                    &&& exists|e: nat| n == #[trigger] pow2(e)
                },
                Err(_) => dict_size_bytes is None && dict_size_log > 15 || 2 * asked
                    > usize::MAX,
            }
        }),
{
    lemma2_to64();
    lemma_pow2_pos(dict_size_log as nat);
    let asked = match dict_size_bytes {
        Some(b) => b as int,
        None => (0x2_0000 * pow2(dict_size_log as nat)) as int,
    };
    lemma_power_between(1, asked, 0);
}

/// A member is what was announced of it: where a stream makes more, the first
/// bytes of it; where it makes less, what it makes.
pub proof fn lemma_output_is_cut(
    data: Seq<u8>,
    size: int,
    tabs: Option<CodeLengths>,
    z: Lz,
    n: int,
    extra_dist: bool,
)
    requires
        0 <= size,
        0 < n,
        ({
            let run = run_blocks(data, 0, tabs, z, n, extra_dist, z.out.len() + size);
            &&& run is Ok
            &&& run->Ok_0.0.filters.len() == 0
            &&& z.out.len() <= run->Ok_0.0.out.len() <= z.out.len() + n
        }),
    ensures
        ({
            let out = run_blocks(data, 0, tabs, z, n, extra_dist, z.out.len() + size)->Ok_0.0.out;
            let made = out.len() - z.out.len();
            let want = if made < size {
                made
            } else {
                size
            };
            decode_member(data, size, tabs, z, n, extra_dist) == Ok::<Seq<u8>, CodecError>(
                out.subrange(z.out.len() as int, z.out.len() + want),
            )
        }),
{
    let base = z.out.len() as int;
    let out = run_blocks(data, 0, tabs, z, n, extra_dist, base + size)->Ok_0.0.out;
    let made = out.len() - base;
    let want = if made < size {
        made
    } else {
        size
    };
    lemma_window_output(out, n, base, want as nat);
}

/// Higher levels search harder: longer chains, more passes over a block, and
/// the history from level two on; the first is greedy and makes no pass.
pub proof fn lemma_levels_law(method: u8)
    requires
        1 <= method <= 5,
    ensures
        ({
            let p = spec_level_params(method);
            &&& p.max_match == 0x1001
            &&& p.long_range <==> method >= 2
            &&& p.passes > 0 <==> method >= 2
            &&& method == 1 ==> p.chain_len == 4
            &&& method == 5 ==> p.chain_len == 1024 && p.passes == 4
            &&& method < 5 ==> {
                let q = spec_level_params((method + 1) as u8);
                &&& 2 * p.chain_len < q.chain_len
                &&& p.passes <= q.passes
                &&& p.lazy_thresh <= q.lazy_thresh
            }
        }),
{
}

} // verus!
