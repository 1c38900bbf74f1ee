//! Encoding: chunks of data to symbols, symbols to blocks.

use crate::codec::bits::byte_align;
use crate::codec::block::{
    apply_all, block_coded, block_runs, block_spells, encode_block, encode_empty_block, lemma_apply_concat, short_of,
    stands_at, symbols_ok, MAX_BLOCK_SYMBOLS,
};
use crate::codec::decode::{run_block, run_blocks};
use crate::codec::error::CodecError;
use crate::codec::greedy::{find_matches_in_range, greedy_result};
use crate::codec::levels::{
    all_symbols, blocks_end, blocks_memory, blocks_out, blocks_parsed, blocks_search, carried_after,
    chained, chosen, chunk_at, chunk_found, chunk_step, chunks_written, finder_ready,
    history_ground, keeps_history, lemma_block_push, lemma_choice_push, lemma_no_choice, lemma_parts_carry, lemma_same_blocks,
    nothing_carried, optimal_result, own_ground, parts_end, slice_chosen, slice_ground,
    slice_symbols_of, slices_chosen, slices_written, written_at_level, Carried, ChunkChoice, ParsedBlock,
};
use crate::codec::lz::{lz_ok, Lz};
use crate::codec::match_finder::{
    history_after, is_suffix, lemma_history_after, LongRange, MatchFinder,
};
use crate::codec::matching::{
    knows, lemma_sym_run_concat, lemma_sym_run_decodes, lemma_sym_run_forward, memory_of,
    output_ends, sym_run, Memory,
};
use crate::codec::parse::{
    far_ground, history_agrees, parse_one_block, probe_ok, BlockSplitter, EncoderMatchState,
    FarGround, LongRangeProbe, MAX_BLOCK_SIZE, OPT_BLOCK_SIZE,
};
use crate::codec::slots::{length_bonus, spec_length_bonus, MAX_MATCH};
use crate::codec::symbols::Symbol;
use crate::codec::tables::CodeLengths;
use std::collections::HashSet;
use vstd::prelude::*;

verus! {

// ── Streams of blocks ──────────────────────────────────────────────────────

/// `p` is a stretch of a stream: wherever it stands, decoding it carries out
/// `syms`. Where it ends the stream, or gives output enough, decoding stops
/// behind it; otherwise it goes on there.
pub open spec fn stream_runs(p: Seq<u8>, syms: Seq<Symbol>, last: bool, extra_dist: bool) -> bool {
    forall|data: Seq<u8>, pos: int, tabs: Option<CodeLengths>, z: Lz, n: int, goal: int|
        stands_at(data, pos, p) && short_of(z, n, syms, goal) && (z.out.len() < goal) ==> {
            let r = #[trigger] run_blocks(data, pos, tabs, z, n, extra_dist, goal);
            let z2 = apply_all(z, n, syms);
            if last || z2.out.len() >= goal {
                r is Ok && r->Ok_0.0 == z2
            } else {
                resumes(
                    r,
                    data,
                    byte_align(pos) + 8 * p.len(),
                    z2,
                    n,
                    extra_dist,
                    goal,
                )
            }
        }
}

/// The outcome `r` is that of decoding from `pos` on with some tables.
pub open spec fn resumes(
    r: Result<(Lz, Option<CodeLengths>), CodecError>,
    data: Seq<u8>,
    pos: int,
    z: Lz,
    n: int,
    extra_dist: bool,
    goal: int,
) -> bool {
    exists|t: Option<CodeLengths>|
        r == #[trigger] run_blocks(data, pos, t, z, n, extra_dist, goal)
}

/// Where a block is looked for depends on the byte only.
proof fn lemma_run_blocks_align(
    data: Seq<u8>,
    pos: int,
    other: int,
    tabs: Option<CodeLengths>,
    z: Lz,
    n: int,
    extra_dist: bool,
    goal: int,
)
    requires
        byte_align(pos) == byte_align(other),
    ensures
        run_blocks(data, pos, tabs, z, n, extra_dist, goal) == run_blocks(
            data,
            other,
            tabs,
            z,
            n,
            extra_dist,
            goal,
        ),
{
    reveal(crate::codec::decode::spec_read_header);
    assert(crate::codec::decode::spec_read_header(data, pos)
        == crate::codec::decode::spec_read_header(data, other));
    assert(run_block(data, pos, tabs, z, n, extra_dist, goal) == run_block(
        data,
        other,
        tabs,
        z,
        n,
        extra_dist,
        goal,
    ));
}

/// Nothing at all is a stretch of a stream.
pub proof fn lemma_stream_empty(extra_dist: bool)
    ensures
        stream_runs(Seq::empty(), Seq::empty(), false, extra_dist),
{
    assert forall|data: Seq<u8>, pos: int, tabs: Option<CodeLengths>, z: Lz, n: int, goal: int|
        stands_at(data, pos, Seq::empty()) && short_of(z, n, Seq::empty(), goal) && (z.out.len()
            < goal) implies {
        let r = #[trigger] run_blocks(data, pos, tabs, z, n, extra_dist, goal);
        let z2 = apply_all(z, n, Seq::empty());
        z2.out.len() < goal && resumes(
            r,
            data,
            byte_align(pos) + 8 * Seq::<u8>::empty().len(),
            z2,
            n,
            extra_dist,
            goal,
        )
    } by {
        let q = byte_align(pos);
        assert(byte_align(q) == q);
        lemma_run_blocks_align(data, pos, q, tabs, z, n, extra_dist, goal);
        assert(run_blocks(data, pos, tabs, z, n, extra_dist, goal) == run_blocks(
            data,
            q + 8 * Seq::<u8>::empty().len(),
            tabs,
            z,
            n,
            extra_dist,
            goal,
        ));
    }
}

proof fn lemma_align_step(pos: int, k: int)
    ensures
        byte_align(byte_align(pos) + 8 * k) == byte_align(pos) + 8 * k,
        (byte_align(pos) + 8 * k) / 8 == byte_align(pos) / 8 + k,
{
}

proof fn lemma_stands_split(data: Seq<u8>, pos: int, p: Seq<u8>, b: Seq<u8>)
    requires
        stands_at(data, pos, p + b),
    ensures
        stands_at(data, pos, p),
        stands_at(data, byte_align(pos) + 8 * p.len(), b),
        byte_align(byte_align(pos) + 8 * p.len()) == byte_align(pos) + 8 * p.len(),
{
    let at = byte_align(pos) / 8;
    lemma_align_step(pos, p.len() as int);
    let w = p + b;
    let part = data.subrange(at, at + w.len());
    assert(part == w);
    assert forall|i: int| 0 <= i < p.len() implies data.subrange(at, at + p.len())[i] == p[i] by {
        assert(part[i] == data[at + i]);
    }
    let at2 = at + p.len();
    assert forall|i: int| 0 <= i < b.len() implies data.subrange(at2, at2 + b.len())[i] == b[i] by {
        assert(part[p.len() + i] == data[at2 + i]);
        assert(w[p.len() + i] == b[i]);
    }
}

/// Before each of the later symbols the output is still short of `goal`.
proof fn lemma_short_concat(z: Lz, n: int, a: Seq<Symbol>, b: Seq<Symbol>, goal: int)
    requires
        short_of(z, n, a + b, goal),
    ensures
        short_of(z, n, a, goal),
        short_of(apply_all(z, n, a), n, b, goal),
        b.len() > 0 ==> apply_all(z, n, a).out.len() < goal,
{
    let ab = a + b;
    assert forall|k: int| 0 <= k < a.len() implies (#[trigger] apply_all(
        z,
        n,
        a.subrange(0, k),
    )).out.len() < goal by {
        assert(ab.subrange(0, k) =~= a.subrange(0, k));
    }
    let z1 = apply_all(z, n, a);
    assert forall|k: int| 0 <= k < b.len() implies (#[trigger] apply_all(
        z1,
        n,
        b.subrange(0, k),
    )).out.len() < goal by {
        lemma_apply_concat(z, n, a, b.subrange(0, k));
        assert(ab.subrange(0, a.len() + k) =~= a + b.subrange(0, k));
        assert(apply_all(z, n, ab.subrange(0, a.len() + k)).out.len() < goal);
    }
    if b.len() > 0 {
        assert(ab.subrange(0, a.len() as int) =~= a);
        assert(apply_all(z, n, ab.subrange(0, a.len() as int)).out.len() < goal);
    }
}

/// A block behind a stretch of a stream makes it longer.
#[verifier::rlimit(40)]
pub proof fn lemma_stream_push(
    p: Seq<u8>,
    syms: Seq<Symbol>,
    b: Seq<u8>,
    more: Seq<Symbol>,
    last: bool,
    extra_dist: bool,
)
    requires
        stream_runs(p, syms, false, extra_dist),
        block_runs(b, more, last, extra_dist),
        more.len() > 0,
    ensures
        stream_runs(p + b, syms + more, last, extra_dist),
{
    assert forall|data: Seq<u8>, pos: int, tabs: Option<CodeLengths>, z: Lz, n: int, goal: int|
        stands_at(data, pos, p + b) && short_of(z, n, syms + more, goal) && (z.out.len()
            < goal) implies {
        let r = #[trigger] run_blocks(data, pos, tabs, z, n, extra_dist, goal);
        let z2 = apply_all(z, n, syms + more);
        if last || z2.out.len() >= goal {
            r is Ok && r->Ok_0.0 == z2
        } else {
            resumes(
                r,
                data,
                byte_align(pos) + 8 * (p + b).len(),
                z2,
                n,
                extra_dist,
                goal,
            )
        }
    } by {
        let r = run_blocks(data, pos, tabs, z, n, extra_dist, goal);
        let z1 = apply_all(z, n, syms);
        let z2 = apply_all(z, n, syms + more);
        let q = byte_align(pos) + 8 * p.len();
        lemma_stands_split(data, pos, p, b);
        lemma_short_concat(z, n, syms, more, goal);
        lemma_apply_concat(z, n, syms, more);
        assert(resumes(r, data, q, z1, n, extra_dist, goal));
        let t1 = choose|t: Option<CodeLengths>|
            r == #[trigger] run_blocks(data, q, t, z1, n, extra_dist, goal);
        let e = run_block(data, q, t1, z1, n, extra_dist, goal);
        assert(e is Ok && e->Ok_0.lz == z2 && e->Ok_0.last == last);
        assert(byte_align(e->Ok_0.next) == q + 8 * b.len());
        if !last {
            let next = e->Ok_0.next;
            let q2 = byte_align(pos) + 8 * (p + b).len();
            assert(q2 == q + 8 * b.len());
            lemma_run_blocks_align(
                data,
                next,
                q2,
                Some(e->Ok_0.tabs),
                z2,
                n,
                extra_dist,
                goal,
            );
            assert(r == run_blocks(data, q2, Some(e->Ok_0.tabs), z2, n, extra_dist, goal));
        }
    }
}

// ── What an encoder knows of its stream ────────────────────────────────────

/// What an encoder knows of the stream so far: how it ends, and what the
/// decoder remembers.
pub ghost struct Known {
    pub stream: Seq<u8>,
    pub memory: Memory,
}

/// The decoder's state is one the encoder's knowledge is true of.
pub open spec fn agrees(s: Known, z: Lz) -> bool {
    &&& lz_ok(z)
    &&& is_suffix(s.stream, z.out)
    &&& knows(s.memory, memory_of(z))
}

/// From every decoder state that `s0` is true of, `syms` appends `data`,
/// no earlier than with its last symbol, and `s1` is true afterwards.
pub open spec fn carries(
    s0: Known,
    syms: Seq<Symbol>,
    data: Seq<u8>,
    s1: Known,
    window: int,
) -> bool {
    forall|z: Lz, n: int|
        #![trigger apply_all(z, n, syms)]
        agrees(s0, z) && window <= n ==> {
            let z2 = apply_all(z, n, syms);
            &&& z2.out == z.out + data
            &&& z2.filters == z.filters
            &&& agrees(s1, z2)
            &&& short_of(z, n, syms, (z.out.len() + data.len()) as int)
        }
}

/// `packed` encodes `data` for a decoder that `s0` is true of.
pub open spec fn encodes(
    s0: Known,
    data: Seq<u8>,
    packed: Seq<u8>,
    s1: Known,
    window: int,
    last: bool,
    extra_dist: bool,
) -> bool {
    exists|syms: Seq<Symbol>|
        #[trigger] stream_runs(packed, syms, last, extra_dist) && carries(
            s0,
            syms,
            data,
            s1,
            window,
        )
}

pub proof fn lemma_carries_concat(
    s0: Known,
    a: Seq<Symbol>,
    d: Seq<u8>,
    s1: Known,
    b: Seq<Symbol>,
    e: Seq<u8>,
    s2: Known,
    window: int,
)
    requires
        carries(s0, a, d, s1, window),
        carries(s1, b, e, s2, window),
    ensures
        carries(s0, a + b, d + e, s2, window),
{
    assert forall|z: Lz, n: int|
        #![trigger apply_all(z, n, a + b)]
        agrees(s0, z) && window <= n implies {
        let z2 = apply_all(z, n, a + b);
        &&& z2.out == z.out + (d + e)
        &&& z2.filters == z.filters
        &&& agrees(s2, z2)
        &&& short_of(z, n, a + b, (z.out.len() + (d + e).len()) as int)
    } by {
        let z1 = apply_all(z, n, a);
        let z2 = apply_all(z1, n, b);
        lemma_apply_concat(z, n, a, b);
        assert(z.out + d + e =~= z.out + (d + e));
        let ab = a + b;
        let goal = (z.out.len() + (d + e).len()) as int;
        assert forall|k: int| 0 <= k < ab.len() implies (#[trigger] apply_all(
            z,
            n,
            ab.subrange(0, k),
        )).out.len() < goal by {
            if k < a.len() {
                assert(ab.subrange(0, k) =~= a.subrange(0, k));
                assert(apply_all(z, n, a.subrange(0, k)).out.len() < z.out.len() + d.len());
            } else {
                let j = k - a.len();
                assert(ab.subrange(0, k) =~= a + b.subrange(0, j));
                lemma_apply_concat(z, n, a, b.subrange(0, j));
                assert(apply_all(z1, n, b.subrange(0, j)).out.len() < z1.out.len() + e.len());
            }
        }
    }
}

pub proof fn lemma_suffix_trans(a: Seq<u8>, b: Seq<u8>, c: Seq<u8>)
    requires
        is_suffix(a, b),
        is_suffix(b, c),
    ensures
        is_suffix(a, c),
{
    let s = c.subrange(c.len() - a.len(), c.len() as int);
    assert forall|i: int| 0 <= i < a.len() implies s[i] == a[i] by {
        let bb = c.subrange(c.len() - b.len(), c.len() as int);
        assert(bb[b.len() - a.len() + i] == b[b.len() - a.len() + i]);
        assert(b.subrange(b.len() - a.len(), b.len() as int)[i] == a[i]);
    }
}

pub proof fn lemma_suffix_append(a: Seq<u8>, b: Seq<u8>, c: Seq<u8>)
    requires
        is_suffix(a, b),
    ensures
        is_suffix(a + c, b + c),
{
    let s = (b + c).subrange((b + c).len() - (a + c).len(), (b + c).len() as int);
    assert forall|i: int| 0 <= i < (a + c).len() implies s[i] == (a + c)[i] by {
        if i < a.len() {
            assert(b.subrange(b.len() - a.len(), b.len() as int)[i] == a[i]);
        }
    }
}

/// Symbols that encode the end of a stream carry it, for every decoder that
/// has the beginning.
/// What the first symbols of a run carry.
proof fn lemma_part_carries(
    full: Seq<u8>,
    at: int,
    g: Memory,
    syms: Seq<Symbol>,
    q: int,
    h: Memory,
    window: int,
)
    requires
        0 <= at <= full.len(),
        sym_run(full, window, at, g, syms) == Some((q, h)),
        at <= q <= full.len(),
    ensures
        carries(
            Known { stream: full.subrange(0, at), memory: g },
            syms,
            full.subrange(at, q),
            Known { stream: full.subrange(0, q), memory: h },
            window,
        ),
{
    let s0 = Known { stream: full.subrange(0, at), memory: g };
    let s1 = Known { stream: full.subrange(0, q), memory: h };
    let data = full.subrange(at, q);
    assert forall|z: Lz, n: int|
        #![trigger apply_all(z, n, syms)]
        agrees(s0, z) && window <= n implies {
        let z2 = apply_all(z, n, syms);
        &&& z2.out == z.out + data
        &&& z2.filters == z.filters
        &&& agrees(s1, z2)
        &&& short_of(z, n, syms, (z.out.len() + data.len()) as int)
    } by {
        assert(output_ends(z, full, at));
        lemma_sym_run_decodes(full, window, at, g, syms, z, n);
    }
}

pub proof fn lemma_run_carries(
    full: Seq<u8>,
    at: int,
    g: Memory,
    syms: Seq<Symbol>,
    h: Memory,
    after: Known,
    window: int,
)
    requires
        0 <= at <= full.len(),
        sym_run(full, window, at, g, syms) == Some((full.len() as int, h)),
        is_suffix(after.stream, full),
        knows(after.memory, h),
    ensures
        carries(
            Known { stream: full.subrange(0, at), memory: g },
            syms,
            full.subrange(at, full.len() as int),
            after,
            window,
        ),
{
    let s0 = Known { stream: full.subrange(0, at), memory: g };
    let data = full.subrange(at, full.len() as int);
    assert forall|z: Lz, n: int|
        #![trigger apply_all(z, n, syms)]
        agrees(s0, z) && window <= n implies {
        let z2 = apply_all(z, n, syms);
        &&& z2.out == z.out + data
        &&& z2.filters == z.filters
        &&& agrees(after, z2)
        &&& short_of(z, n, syms, (z.out.len() + data.len()) as int)
    } by {
        assert(output_ends(z, full, at));
        lemma_sym_run_decodes(full, window, at, g, syms, z, n);
        let z2 = apply_all(z, n, syms);
        assert(full.subrange(0, full.len() as int) =~= full);
        assert(is_suffix(full, z2.out));
        lemma_suffix_trans(after.stream, full, z2.out);
    }
}

/// What is true for a longer known stream serves a shorter one too, read the
/// other way round: a decoder with the longer past has the shorter.
pub proof fn lemma_agrees_less(s: Known, less: Known, z: Lz)
    requires
        agrees(s, z),
        is_suffix(less.stream, s.stream),
        knows(less.memory, s.memory),
    ensures
        agrees(less, z),
{
    lemma_suffix_trans(less.stream, s.stream, z.out);
}

/// Two ends of one stream: the shorter is an end of the longer.
proof fn lemma_suffix_total(a: Seq<u8>, b: Seq<u8>, c: Seq<u8>)
    requires
        is_suffix(a, c),
        is_suffix(b, c),
        a.len() <= b.len(),
    ensures
        is_suffix(a, b),
{
    let s = b.subrange(b.len() - a.len(), b.len() as int);
    assert forall|i: int| 0 <= i < a.len() implies s[i] == a[i] by {
        let ca = c.subrange(c.len() - a.len(), c.len() as int);
        let cb = c.subrange(c.len() - b.len(), c.len() as int);
        assert(ca[i] == a[i]);
        assert(cb[b.len() - a.len() + i] == b[b.len() - a.len() + i]);
    }
}

/// Near-window (tail) context cap: the near search only needs short
/// distances, longer ones come from the sampled long-range history.
pub const NEAR_WINDOW_MAX: usize = 8 * 1024 * 1024;

/// What an encoder knows before it has encoded anything.
pub open spec fn nothing_known() -> Known {
    Known {
        stream: Seq::empty(),
        memory: Memory { reps: seq![0u64, 0u64, 0u64, 0u64], last: 0 },
    }
}

/// Persistent encoder state for solid archive support.
///
/// Carries the lookbehind window tail, distance cache and last length
/// across files (and across chunks within a file) so consecutive
/// compressed members share one LZ window. Also carries the long-range
/// match history so distant repeated blocks compress across chunk boundaries.
pub struct EncoderState {
    tail: Vec<u8>,
    memory: EncoderMatchState,
    long_range: Option<LongRange>,
    finder: Option<MatchFinder>,
    /// Length of the previous frame; zero where the next one starts afresh.
    frame_len: usize,
}

impl EncoderState {
    spec fn hist(&self) -> Seq<u8> {
        match self.long_range {
            Some(l) => l.history(),
            None => Seq::empty(),
        }
    }

    /// What the encoder carries from one chunk to the next.
    pub closed spec fn carried(&self) -> Carried {
        Carried {
            near: self.tail@,
            far: self.hist(),
            memory: self.memory@,
            finder: self.finder,
            frame_len: self.frame_len as int,
        }
    }

    /// What the encoder knows of its stream.
    pub open spec fn known(&self) -> Known {
        self.carried().known()
    }

    /// What the searches look back at is the end of the known stream.
    pub proof fn lemma_looks_back(&self)
        requires
            self.wf(),
        ensures
            is_suffix(self.carried().near, self.known().stream),
            is_suffix(self.carried().far, self.known().stream),
    {
    }

    pub closed spec fn wf(&self) -> bool {
        &&& is_suffix(self.tail@, self.known().stream)
        &&& is_suffix(self.hist(), self.known().stream)
        &&& match self.long_range {
            Some(l) => l.wf(),
            None => true,
        }
        &&& match self.finder {
            Some(f) => f.wf(),
            None => true,
        }
        &&& self.frame_len > 0 ==> self.frame_len >= self.tail@.len()
    }

    /// Reset the solid chain. Call after any member that does not
    /// participate in the LZ window (directories, STORE files, empty
    /// files).
    pub fn reset(&mut self)
        requires
            old(self).wf(),
        ensures
            final(self).wf(),
            final(self).carried() == nothing_carried(),
            final(self).known() == nothing_known(),
    {
        self.tail.clear();
        self.memory = EncoderMatchState { reps: [0, 0, 0, 0], last_length: 0 };
        self.long_range = None;
        self.finder = None;
        self.frame_len = 0;
        proof {
            assert(self.tail@ =~= Seq::<u8>::empty());
            assert(self.known().memory.reps =~= nothing_known().memory.reps);
            assert(self.known().stream =~= Seq::<u8>::empty());
        }
    }
}

impl Default for EncoderState {
    fn default() -> (s: Self)
        ensures
            s.wf(),
            s.carried() == nothing_carried(),
            s.known() == nothing_known(),
    {
        let s = EncoderState {
            tail: Vec::new(),
            memory: EncoderMatchState { reps: [0, 0, 0, 0], last_length: 0 },
            long_range: None,
            finder: None,
            frame_len: 0,
        };
        proof {
            assert(s.tail@ =~= Seq::<u8>::empty());
            assert(s.known().memory.reps =~= nothing_known().memory.reps);
            assert(s.known().stream =~= Seq::<u8>::empty());
        }
        s
    }
}

/// A finder for `frame`, whose first `tail_len` bytes were seen before: the
/// finder of the frame before, moved on, or a new one that is told of them.
fn prepare_finder(
    prev: Option<MatchFinder>,
    frame: &[u8],
    tail_len: usize,
    frame_len: usize,
    seed_tail: bool,
) -> (f: MatchFinder)
    requires
        tail_len <= frame@.len(),
        match prev {
            Some(f) => f.wf(),
            None => true,
        },
        frame_len > 0 ==> frame_len >= tail_len,
    ensures
        f.wf(),
        finder_ready(prev, frame_len as int, frame@, tail_len as int, seed_tail, f),
{
    let mut finder: MatchFinder = match prev {
        Some(f) => {
            let mut f = f;
            if frame_len > 0 && f.reach() >= frame.len() {
                f.slide(frame_len - tail_len);
                return f;
            }
            if f.reach() >= frame.len() {
                f.clear();
                f
            } else {
                MatchFinder::new(frame.len())
            }
        },
        None => MatchFinder::new(frame.len()),
    };
    let ghost fresh = finder;
    assert(fresh.is_empty());
    if seed_tail {
        let mut pos: usize = 0;
        while pos < tail_len
            invariant
                pos <= tail_len <= frame@.len(),
                finder.wf(),
                frame@.len() <= u32::MAX ==> finder.seen_since(fresh, frame@, 0, pos as int),
            decreases tail_len - pos,
        {
            let ghost last = finder;
            finder.insert(frame, pos);
            proof {
                if frame@.len() <= u32::MAX {
                    finder.lemma_seen_since(last, fresh, frame@, 0, pos as int);
                }
            }
            pos = pos + 1;
        }
    }
    finder
}

/// The last `want` bytes of `s`, or all of it.
pub open spec fn last_bytes(s: Seq<u8>, want: int) -> Seq<u8> {
    if s.len() <= want {
        s
    } else {
        s.subrange(s.len() - want, s.len() as int)
    }
}

/// How many bytes before a chunk the near search keeps.
pub open spec fn near_window(window: int) -> int {
    if window < NEAR_WINDOW_MAX {
        window
    } else {
        NEAR_WINDOW_MAX as int
    }
}

/// The end of `frame` that the next chunk may refer to.
fn next_tail(frame: &[u8], window: usize) -> (tail: Vec<u8>)
    ensures
        is_suffix(tail@, frame@),
        tail@ == last_bytes(frame@, near_window(window as int)),
{
    let n: usize = frame.len();
    let mut keep: usize = if window < NEAR_WINDOW_MAX { window } else { NEAR_WINDOW_MAX };
    if n < keep {
        keep = n;
    }
    let t = vstd::slice::slice_subrange(frame, n - keep, n);
    assert(t@ =~= last_bytes(frame@, near_window(window as int)));
    vstd::slice::slice_to_vec(t)
}

/// What the state holds after a frame that ended the stream `full`.
proof fn lemma_state_after(state: EncoderState, full: Seq<u8>)
    requires
        is_suffix(state.tail@, full),
        is_suffix(state.hist(), full),
    ensures
        is_suffix(state.tail@, state.known().stream),
        is_suffix(state.hist(), state.known().stream),
        is_suffix(state.known().stream, full),
{
    assert(state.tail@.subrange(0, state.tail@.len() as int) =~= state.tail@);
    assert(state.hist().subrange(0, state.hist().len() as int) =~= state.hist());
    if state.hist().len() > state.tail@.len() {
        lemma_suffix_total(state.tail@, state.hist(), full);
    } else {
        lemma_suffix_total(state.hist(), state.tail@, full);
    }
}

/// A shared history and where the chunk starts in it.
#[derive(Clone, Copy)]
pub struct SharedHistory<'a> {
    pub table: &'a LongRange,
    pub anchor: usize,
}

/// The ground of a long-range search, in a shared history where there is one,
/// else in the history carried.
pub open spec fn search_history(
    c: Carried,
    chunk: Seq<u8>,
    shared: Option<SharedHistory<'_>>,
    long_range: bool,
    window: int,
) -> Option<FarGround> {
    match shared {
        Some(s) => if long_range {
            Some(
                history_ground(
                    s.table.history(),
                    s.anchor as int,
                    c.near.len() as int,
                    (c.near + chunk).len() as int,
                    s.table.max_distance(),
                ),
            )
        } else {
            None
        },
        None => own_ground(c, chunk, long_range, window),
    }
}

/// Match-search settings of a compression level.
#[derive(Clone, Copy)]
pub struct LevelParams {
    pub chain_len: usize,
    pub lazy_thresh: usize,
    pub max_match: usize,
    /// Parse passes; the greedy search is used where there are none.
    pub passes: usize,
    pub long_range: bool,
}

/// The long-range history that a chunk is searched in.
fn own_history(state: &mut EncoderState, window: usize, wanted: bool)
    requires
        old(state).wf(),
    ensures
        final(state).tail == old(state).tail,
        final(state).memory == old(state).memory,
        final(state).finder == old(state).finder,
        final(state).frame_len == old(state).frame_len,
        wanted ==> final(state).long_range is Some && final(state).long_range->Some_0.wf()
            && final(state).long_range->Some_0.max_distance() == window && final(state).hist()
            == old(state).hist(),
        !wanted ==> final(state).long_range is None,
{
    let prev: Option<LongRange> = state.long_range.take();
    if wanted {
        match prev {
            Some(l) => {
                let mut l = l;
                l.set_window(window);
                state.long_range = Some(l);
            },
            None => {
                let l = LongRange::new(window);
                state.long_range = Some(l);
            },
        }
    }
}

/// Find symbols for `chunk` with the optimal parse, searching against the
/// state's tail as lookbehind. Advances the state so a following chunk
/// continues the LZ window. `full` is the stream up to the chunk's end.
///
/// The chunk is split into parse blocks by byte distribution. `seed_tail` is
/// `false` only when the caller found the tail to hold no useful matches.
#[verifier::rlimit(60)]
#[verifier::spinoff_prover]
fn find_matches_optimal(
    state: &mut EncoderState,
    chunk: &[u8],
    params: LevelParams,
    window: usize,
    shared: Option<SharedHistory<'_>>,
    extra_dist: bool,
    seed_tail: bool,
    Ghost(full): Ghost<Seq<u8>>,
) -> (symbols: Vec<Symbol>)
    requires
        old(state).wf(),
        params.max_match <= MAX_MATCH,
        is_suffix(old(state).tail@ + chunk@, full),
        is_suffix(old(state).hist(), full.subrange(0, full.len() - chunk@.len())),
        match shared {
            Some(s) => {
                &&& s.table.wf()
                &&& s.table.max_distance() <= window
                &&& s.anchor <= s.table.history().len()
                &&& history_agrees(
                    s.table.history(),
                    full,
                    full.len() - chunk@.len(),
                    s.anchor as int,
                )
            },
            None => true,
        },
    ensures
        final(state).wf(),
        is_suffix(final(state).known().stream, full),
        sym_run(
            full,
            window as int,
            full.len() - chunk@.len(),
            old(state).memory@,
            symbols@,
        ) == Some((full.len() as int, final(state).memory@)),
        final(state).finder is Some,
        final(state).carried() == carried_after(
            old(state).carried(),
            chunk@,
            params.long_range && shared is None,
            window as int,
            final(state).memory@,
            final(state).finder->Some_0,
        ),
        exists|f0: MatchFinder| #[trigger]
            finder_ready(
            old(state).finder,
            old(state).frame_len as int,
            old(state).tail@ + chunk@,
            old(state).tail@.len() as int,
            seed_tail,
            f0,
        ) && optimal_result(
            full,
            old(state).tail@ + chunk@,
            old(state).tail@.len() as int,
            params,
            window as int,
            search_history(
                old(state).carried(),
                chunk@,
                shared,
                params.long_range,
                window as int,
            ),
            old(state).memory@,
            symbols@,
            final(state).memory@,
            f0,
            final(state).finder->Some_0,
        ),
{
    let tail_len: usize = state.tail.len();
    let ghost before = full.subrange(0, full.len() - chunk@.len());
    let mut frame: Vec<u8> = state.tail.clone();
    assert(frame@ =~= state.tail@);
    frame.extend_from_slice(chunk);
    let n: usize = frame.len();
    assert(frame@ =~= old(state).tail@ + chunk@);
    let ghost delta = full.len() - n;
    let ghost at = full.len() - chunk@.len();
    let ghost far = search_history(
        state.carried(),
        chunk@,
        shared,
        params.long_range,
        window as int,
    );
    own_history(state, window, params.long_range && shared.is_none());
    let prev: Option<MatchFinder> = state.finder.take();
    let mut finder = prepare_finder(prev, frame.as_slice(), tail_len, state.frame_len, seed_tail);
    let ghost f0 = finder;
    let near_max: usize = if n < usize::MAX { n } else { usize::MAX - 1 };
    let lr: Option<LongRangeProbe<'_>> = if params.long_range {
        match shared {
            Some(s) => Some(
                LongRangeProbe {
                    table: s.table,
                    near_max,
                    anchor: s.anchor,
                    chunk_start: tail_len,
                },
            ),
            None => match &state.long_range {
                Some(l) => Some(
                    LongRangeProbe {
                        table: l,
                        near_max,
                        anchor: l.hist_len(),
                        chunk_start: tail_len,
                    },
                ),
                None => None,
            },
        }
    } else {
        None
    };
    proof {
        if shared is None && params.long_range {
            let h = old(state).hist();
            assert(history_agrees(h, full, at, h.len() as int)) by {
                let s = before.subrange(before.len() - h.len(), before.len() as int);
                assert forall|k: int| 0 <= k < h.len() implies #[trigger] h[k] == full[at
                    - h.len() + k] by {
                    assert(s[k] == h[k]);
                }
            }
        }
        assert(probe_ok(lr, full, frame@, window as int));
        assert(far == far_ground(lr));
    }
    let mut memory: EncoderMatchState = state.memory;
    let mut symbols: Vec<Symbol> = Vec::new();
    let mut splitter = BlockSplitter::new();
    let mut block_start: usize = tail_len;
    let mut sub_start: usize = tail_len;
    let ghost g = old(state).memory@;
    let ghost mut blocks: Seq<ParsedBlock> = Seq::empty();
    while sub_start < n
        invariant
            n == frame@.len(),
            g == old(state).memory@,
            far == far_ground(lr),
            blocks_parsed(full, frame@, tail_len as int, params, window as int, far, g, blocks),
            blocks_end(blocks, tail_len as int) == block_start,
            blocks_memory(blocks, g) == memory@,
            blocks_out(blocks) == symbols@,
            blocks_search(blocks, f0, finder),
            tail_len <= block_start <= sub_start <= n,
            splitter.wf(),
            splitter.total == sub_start - block_start,
            finder.wf(),
            params.max_match <= MAX_MATCH,
            delta == full.len() - n,
            at == delta + tail_len,
            is_suffix(frame@, full),
            probe_ok(lr, full, frame@, window as int),
            lr is Some ==> lr->Some_0.chunk_start == tail_len,
            sym_run(full, window as int, at, old(state).memory@, symbols@) == Some(
                (delta + block_start, memory@),
            ),
        decreases n - sub_start,
    {
        let sub_end: usize = if n - sub_start < OPT_BLOCK_SIZE {
            n
        } else {
            sub_start + OPT_BLOCK_SIZE
        };
        let sub = vstd::slice::slice_subrange(frame.as_slice(), sub_start, sub_end);
        if !splitter.extends(sub) && splitter.total > 0 {
            // Close the open block here.
            let ghost so_far = symbols@;
            let ghost finder0 = finder;
            let ghost memory0 = memory@;
            let mut block_symbols = parse_one_block(
                frame.as_slice(),
                block_start,
                sub_start,
                &mut finder,
                &mut memory,
                params.chain_len,
                params.max_match,
                window,
                lr,
                extra_dist,
                params.passes,
                Ghost(full),
            );
            proof {
                lemma_sym_run_concat(
                    full,
                    window as int,
                    at,
                    old(state).memory@,
                    so_far,
                    block_symbols@,
                );
                let b = ParsedBlock {
                    start: block_start as int,
                    end: sub_start as int,
                    before: finder0,
                    after: finder,
                    g: memory0,
                    h: memory@,
                    symbols: block_symbols@,
                };
                lemma_block_push(
                    full,
                    frame@,
                    tail_len as int,
                    params,
                    window as int,
                    far,
                    g,
                    blocks,
                    b,
                );
                blocks = blocks.push(b);
            }
            symbols.append(&mut block_symbols);
            splitter = BlockSplitter::new();
            block_start = sub_start;
        }
        splitter.accept(sub);
        sub_start = sub_end;
    }
    if block_start < n {
        let ghost so_far = symbols@;
        let ghost finder0 = finder;
        let ghost memory0 = memory@;
        let mut block_symbols = parse_one_block(
            frame.as_slice(),
            block_start,
            n,
            &mut finder,
            &mut memory,
            params.chain_len,
            params.max_match,
            window,
            lr,
            extra_dist,
            params.passes,
            Ghost(full),
        );
        proof {
            lemma_sym_run_concat(
                full,
                window as int,
                at,
                old(state).memory@,
                so_far,
                block_symbols@,
            );
            let b = ParsedBlock {
                start: block_start as int,
                end: n as int,
                before: finder0,
                after: finder,
                g: memory0,
                h: memory@,
                symbols: block_symbols@,
            };
            lemma_block_push(
                full,
                frame@,
                tail_len as int,
                params,
                window as int,
                far,
                g,
                blocks,
                b,
            );
            blocks = blocks.push(b);
        }
        symbols.append(&mut block_symbols);
    }
    proof {
        reveal(optimal_result);
        assert(blocks_parsed(full, frame@, tail_len as int, params, window as int, far, g, blocks));
        assert(blocks_search(blocks, f0, finder));
        assert(frame@.subrange(tail_len as int, n as int) =~= chunk@);
        lemma_suffix_trans(chunk@, frame@, full);
    }
    finish_frame(state, frame.as_slice(), chunk, window, finder, memory, Ghost(full));
    symbols
}

/// Take a parsed frame into the state: its end, its memory, its history.
fn finish_frame(
    state: &mut EncoderState,
    frame: &[u8],
    chunk: &[u8],
    window: usize,
    finder: MatchFinder,
    memory: EncoderMatchState,
    Ghost(full): Ghost<Seq<u8>>,
)
    requires
        finder.wf(),
        chunk@.len() <= full.len(),
        is_suffix(frame@, full),
        is_suffix(chunk@, full),
        is_suffix(old(state).hist(), full.subrange(0, full.len() - chunk@.len())),
        match old(state).long_range {
            Some(l) => l.wf(),
            None => true,
        },
    ensures
        final(state).wf(),
        final(state).memory == memory,
        final(state).finder == Some(finder),
        is_suffix(final(state).known().stream, full),
        final(state).carried() == (Carried {
            near: last_bytes(frame@, near_window(window as int)),
            far: if old(state).long_range is Some {
                history_after(old(state).hist(), chunk@)
            } else {
                Seq::empty()
            },
            memory: memory@,
            finder: Some(finder),
            frame_len: frame@.len() as int,
        }),
{
    let ghost before = full.subrange(0, full.len() - chunk@.len());
    proof {
        assert(before + chunk@ =~= full);
        lemma_suffix_append(old(state).hist(), before, chunk@);
    }
    let prev: Option<LongRange> = state.long_range.take();
    if let Some(l) = prev {
        let mut l = l;
        l.push(chunk);
        proof {
            lemma_history_after(old(state).hist(), chunk@);
            lemma_suffix_trans(l.history(), old(state).hist() + chunk@, full);
        }
        state.long_range = Some(l);
    }
    state.tail = next_tail(frame, window);
    proof {
        lemma_suffix_trans(state.tail@, frame@, full);
        if state.long_range is None {
            assert(full.subrange(full.len() as int, full.len() as int) =~= Seq::<u8>::empty());
        }
    }
    state.memory = memory;
    state.finder = Some(finder);
    state.frame_len = frame.len();
    proof {
        lemma_state_after(*state, full);
    }
}

/// Find symbols for `chunk` with the greedy search, searching against the
/// state's tail as lookbehind. Advances the state so a following chunk
/// continues the LZ window. `full` is the stream up to the chunk's end.
fn find_matches_with_tail(
    state: &mut EncoderState,
    chunk: &[u8],
    params: LevelParams,
    window: usize,
    Ghost(full): Ghost<Seq<u8>>,
) -> (symbols: Vec<Symbol>)
    requires
        old(state).wf(),
        params.max_match <= MAX_MATCH,
        is_suffix(old(state).tail@ + chunk@, full),
        is_suffix(old(state).hist(), full.subrange(0, full.len() - chunk@.len())),
    ensures
        final(state).wf(),
        is_suffix(final(state).known().stream, full),
        ({
            let r = sym_run(
                full,
                window as int,
                full.len() - chunk@.len(),
                old(state).memory@,
                symbols@,
            );
            r is Some && r->Some_0.0 == full.len() && knows(final(state).memory@, r->Some_0.1)
        }),
        final(state).finder is Some,
        final(state).carried() == carried_after(
            old(state).carried(),
            chunk@,
            params.long_range,
            window as int,
            final(state).memory@,
            final(state).finder->Some_0,
        ),
        exists|f0: MatchFinder| #[trigger]
            finder_ready(
            old(state).finder,
            old(state).frame_len as int,
            old(state).tail@ + chunk@,
            old(state).tail@.len() as int,
            true,
            f0,
        ) && (old(state).tail@.len() + chunk@.len() <= u32::MAX ==> greedy_result(
            old(state).tail@ + chunk@,
            old(state).tail@.len() as int,
            f0,
            own_ground(old(state).carried(), chunk@, params.long_range, window as int),
            params,
            window as int,
            old(state).memory@,
            symbols@,
            final(state).memory@,
        ) && final(state).finder->Some_0.seen_since(
            f0,
            old(state).tail@ + chunk@,
            old(state).tail@.len() as int,
            (old(state).tail@ + chunk@).len() as int,
        )),
{
    let tail_len: usize = state.tail.len();
    let ghost before = full.subrange(0, full.len() - chunk@.len());
    let mut frame: Vec<u8> = state.tail.clone();
    assert(frame@ =~= state.tail@);
    frame.extend_from_slice(chunk);
    let n: usize = frame.len();
    assert(frame@ =~= old(state).tail@ + chunk@);
    let ghost at = full.len() - chunk@.len();
    own_history(state, window, params.long_range);
    let prev: Option<MatchFinder> = state.finder.take();
    let mut finder = prepare_finder(prev, frame.as_slice(), tail_len, state.frame_len, true);
    assert(finder_ready(
        old(state).finder,
        old(state).frame_len as int,
        frame@,
        tail_len as int,
        true,
        finder,
    ));
    let near_max: usize = if n < usize::MAX { n } else { usize::MAX - 1 };
    let lr: Option<LongRangeProbe<'_>> = match &state.long_range {
        Some(l) => Some(
            LongRangeProbe { table: l, near_max, anchor: l.hist_len(), chunk_start: tail_len },
        ),
        None => None,
    };
    proof {
        if params.long_range {
            let h = old(state).hist();
            assert(history_agrees(h, full, at, h.len() as int)) by {
                let s = before.subrange(before.len() - h.len(), before.len() as int);
                assert forall|k: int| 0 <= k < h.len() implies #[trigger] h[k] == full[at
                    - h.len() + k] by {
                    assert(s[k] == h[k]);
                }
            }
        }
        assert(probe_ok(lr, full, frame@, window as int));
        assert(own_ground(old(state).carried(), chunk@, params.long_range, window as int)
            == far_ground(lr));
    }
    let mut memory: EncoderMatchState = state.memory;
    let symbols = find_matches_in_range(
        frame.as_slice(),
        &mut finder,
        tail_len,
        params,
        window,
        &mut memory,
        lr,
        Ghost(full),
    );
    proof {
        assert(frame@.subrange(tail_len as int, n as int) =~= chunk@);
        lemma_suffix_trans(chunk@, frame@, full);
    }
    finish_frame(state, frame.as_slice(), chunk, window, finder, memory, Ghost(full));
    symbols
}

/// Leading filter records, then symbols that encode fewer than `bytes` bytes.
pub open spec fn fits_block(
    syms: Seq<Symbol>,
    lead: int,
    full: Seq<u8>,
    window: int,
    p: int,
    g: Memory,
    bytes: int,
) -> bool {
    let r = sym_run(full, window, p, g, syms.subrange(lead, syms.len() as int));
    &&& 0 <= lead <= syms.len()
    &&& syms.len() <= MAX_BLOCK_SYMBOLS
    &&& forall|i: int| 0 <= i < lead ==> (#[trigger] syms[i]) is Filter
    &&& r is Some
    &&& r->Some_0.0 - p <= bytes
    &&& 0 <= p <= full.len()
    &&& g.reps.len() == 4
}

/// Output that the symbols from `start` to `i` count for, and the length of
/// the last match among them; a literal ends it, and a repeat counts for as
/// much.
pub open spec fn counted(symbols: Seq<Symbol>, start: int, i: int) -> (int, int)
    decreases i - start,
{
    if i <= start {
        (0, 0)
    } else {
        let (count, last) = counted(symbols, start, i - 1);
        match symbols[i - 1] {
            Symbol::Literal(_) => (count + 1, 0),
            Symbol::Match { distance, length } => {
                let l = length + spec_length_bonus(distance as int);
                (count + l, l)
            },
            Symbol::CacheRef { index: _, length } => (count + length, length as int),
            Symbol::Repeat => (count + last, last),
            Symbol::Filter { .. } => (count, last),
        }
    }
}

/// The block from `start` on is full at `i`.
pub open spec fn block_full(symbols: Seq<Symbol>, start: int, i: int, bytes: int) -> bool {
    counted(symbols, start, i).0 >= bytes || i - start >= MAX_BLOCK_SYMBOLS
}

/// Where the block that starts at `start` ends: at the first symbol that
/// brings its output to `max_uncompressed` bytes, or at the last one. A
/// repeat counts for nothing where no match of the block precedes it.
fn find_block_end(
    symbols: &[Symbol],
    start: usize,
    max_uncompressed: usize,
    Ghost(lead): Ghost<int>,
    Ghost(full): Ghost<Seq<u8>>,
    Ghost(window): Ghost<int>,
    Ghost(p): Ghost<int>,
    Ghost(g): Ghost<Memory>,
) -> (end: usize)
    requires
        start < symbols@.len(),
        symbols_ok(symbols@),
        max_uncompressed > 0,
    ensures
        start < end <= symbols@.len(),
        end - start <= MAX_BLOCK_SYMBOLS,
        forall|i: int|
            start < i < end ==> !#[trigger] block_full(
                symbols@,
                start as int,
                i,
                max_uncompressed as int,
            ),
        end < symbols@.len() ==> block_full(
            symbols@,
            start as int,
            end as int,
            max_uncompressed as int,
        ),
        start == 0 && fits_block(symbols@, lead, full, window, p, g, max_uncompressed as int) ==> end
            == symbols@.len(),
{
    let n: usize = symbols.len();
    let ghost within = start == 0 && fits_block(
        symbols@,
        lead,
        full,
        window,
        p,
        g,
        max_uncompressed as int,
    );
    let ghost body = symbols@.subrange(lead, n as int);
    let mut count: usize = 0;
    let mut last_len: usize = 0;
    let mut i: usize = start;
    proof {
        if within {
            assert(body.subrange(0, 0) =~= Seq::<Symbol>::empty());
        }
    }
    while i < n
        invariant
            start <= i <= n,
            n == symbols@.len(),
            start < n,
            symbols_ok(symbols@),
            i - start < MAX_BLOCK_SYMBOLS,
            count < max_uncompressed,
            last_len <= 4100,
            counted(symbols@, start as int, i as int) == (count as int, last_len as int),
            forall|k: int|
                start < k <= i ==> !#[trigger] block_full(
                    symbols@,
                    start as int,
                    k,
                    max_uncompressed as int,
                ),
            within == (start == 0 && fits_block(
                symbols@,
                lead,
                full,
                window,
                p,
                g,
                max_uncompressed as int,
            )),
            body == symbols@.subrange(lead, n as int),
            within && i <= lead ==> count == 0 && last_len == 0,
            within && i >= lead ==> ({
                let r = sym_run(full, window, p, g, body.subrange(0, i - lead));
                &&& r is Some
                &&& p + count <= r->Some_0.0
                &&& last_len == 0 || last_len == r->Some_0.1.last
            }),
        decreases n - i,
    {
        let ghost j = i - lead;
        proof {
            assert(crate::codec::symbols::symbol_ok(symbols@[i as int]));
            if within {
                assert(body.subrange(0, 0) =~= Seq::<Symbol>::empty());
                if i < lead {
                    assert(symbols@[i as int] is Filter);
                } else {
                    lemma_run_prefix(full, window, p, g, body, j + 1);
                    assert(body.subrange(0, j + 1).drop_last() =~= body.subrange(0, j));
                    assert(body.subrange(0, j + 1).last() == symbols@[i as int]);
                }
            }
        }
        let step: usize = match symbols[i] {
            Symbol::Literal(_) => {
                last_len = 0;
                1
            },
            Symbol::Match { distance, length } => {
                last_len = (length + length_bonus(distance)) as usize;
                last_len
            },
            Symbol::CacheRef { index, length } => {
                last_len = length as usize;
                last_len
            },
            Symbol::Repeat => last_len,
            Symbol::Filter { .. } => 0,
        };
        assert(counted(symbols@, start as int, i + 1) == (count + step, last_len as int));
        if step >= max_uncompressed - count || i - start + 1 >= MAX_BLOCK_SYMBOLS {
            proof {
                if within && i >= lead {
                    let r = sym_run(full, window, p, g, body.subrange(0, j + 1))->Some_0;
                    let rest = body.subrange(j + 1, body.len() as int);
                    assert(body.subrange(0, j + 1) + rest =~= body);
                    lemma_sym_run_concat(full, window, p, g, body.subrange(0, j + 1), rest);
                    lemma_sym_run_forward(full, window, p, g, body.subrange(0, j + 1));
                    lemma_sym_run_forward(full, window, r.0, r.1, rest);
                    assert(p + count + step <= r.0);
                    if rest.len() > 0 {
                        assert(r.0 - p < max_uncompressed);
                    }
                }
            }
            return i + 1;
        }
        count = count + step;
        i = i + 1;
    }
    n
}

proof fn lemma_run_prefix(
    full: Seq<u8>,
    window: int,
    p: int,
    g: Memory,
    syms: Seq<Symbol>,
    k: int,
)
    requires
        sym_run(full, window, p, g, syms) is Some,
        0 <= k <= syms.len(),
    ensures
        sym_run(full, window, p, g, syms.subrange(0, k)) is Some,
    decreases syms.len() - k,
{
    if k == syms.len() {
        assert(syms.subrange(0, k) =~= syms);
    } else {
        lemma_run_prefix(full, window, p, g, syms, k + 1);
        assert(syms.subrange(0, k + 1).drop_last() =~= syms.subrange(0, k));
    }
}

// ── Entry points ───────────────────────────────────────────────────────────

/// Default input chunk size for the encoder. Processing input in bounded
/// slices keeps the symbol table (and match finder) memory proportional to
/// the chunk size instead of the whole file.
pub const DEFAULT_CHUNK_SIZE: usize = 4 * 1024 * 1024;

/// The settings of a compression level; levels outside 1 to 5 count as the
/// nearest.
pub open spec fn spec_level_params(method: u8) -> LevelParams {
    let max_match = MAX_MATCH as usize;
    if method <= 1 {
        LevelParams { chain_len: 4, lazy_thresh: 0, max_match, passes: 0, long_range: false }
    } else if method == 2 {
        LevelParams { chain_len: 16, lazy_thresh: 0, max_match, passes: 2, long_range: true }
    } else if method == 3 {
        LevelParams { chain_len: 96, lazy_thresh: 8, max_match, passes: 2, long_range: true }
    } else if method == 4 {
        LevelParams { chain_len: 256, lazy_thresh: 8, max_match, passes: 3, long_range: true }
    } else {
        LevelParams { chain_len: 1024, lazy_thresh: 8, max_match, passes: 4, long_range: true }
    }
}

/// The settings of a compression level.
pub(crate) fn level_params(method: u8) -> (p: LevelParams)
    ensures
        p == spec_level_params(method),
        p.max_match == MAX_MATCH,
{
    let max_match: usize = MAX_MATCH as usize;
    if method <= 1 {
        LevelParams { chain_len: 4, lazy_thresh: 0, max_match, passes: 0, long_range: false }
    } else if method == 2 {
        LevelParams { chain_len: 16, lazy_thresh: 0, max_match, passes: 2, long_range: true }
    } else if method == 3 {
        LevelParams { chain_len: 96, lazy_thresh: 8, max_match, passes: 2, long_range: true }
    } else if method == 4 {
        LevelParams { chain_len: 256, lazy_thresh: 8, max_match, passes: 3, long_range: true }
    } else {
        LevelParams { chain_len: 1024, lazy_thresh: 8, max_match, passes: 4, long_range: true }
    }
}

/// The dictionary size that a size code stands for.
pub open spec fn dictionary_size(log: u8) -> nat {
    131072 * vstd::arithmetic::power2::pow2(log as nat)
}

/// The dictionary size, as far as memory reaches.
pub open spec fn window_of(log: u8) -> int {
    if dictionary_size(log) <= usize::MAX {
        dictionary_size(log) as int
    } else {
        usize::MAX as int
    }
}

/// The dictionary size, as far as memory reaches.
pub(crate) fn window_size(dict_size_log: u8) -> (w: usize)
    requires
        dict_size_log <= 46,
    ensures
        w == window_of(dict_size_log),
{
    proof {
        vstd::arithmetic::power2::lemma2_to64_rest();
        if dict_size_log < 46 {
            vstd::arithmetic::power2::lemma_pow2_strictly_increases(dict_size_log as nat, 46);
        }
    }
    let size: u64 = 131072 * crate::codec::bits::shl_u64(1, dict_size_log as u32);
    if size > usize::MAX as u64 {
        usize::MAX
    } else {
        size as usize
    }
}

/// How a chunk's symbols are found at the level.
fn find_symbols(
    state: &mut EncoderState,
    chunk: &[u8],
    params: LevelParams,
    window: usize,
    extra_dist: bool,
) -> (symbols: Vec<Symbol>)
    requires
        old(state).wf(),
        params.max_match <= MAX_MATCH,
        chunk@.len() > 0,
    ensures
        final(state).wf(),
        forall|v: int|
            reaches(v, window as int, old(state).known(), chunk@.len() as int)
                ==> #[trigger] carries(
                old(state).known(),
                symbols@,
                chunk@,
                final(state).known(),
                v,
            ),
        symbols@.len() > 0,
        symbols_ok(symbols@),
        forall|v: int|
            reaches(v, window as int, old(state).known(), chunk@.len() as int)
                ==> #[trigger] runs_over(old(state).known(), chunk@, symbols@, v),
        chunk_step(
            old(state).carried(),
            chunk@,
            params,
            window as int,
            symbols@,
            final(state).carried(),
        ),
        final(state).known().stream.len() <= old(state).known().stream.len() + chunk@.len(),
{
    let ghost k0 = state.known();
    let ghost tail = state.tail@;
    let ghost full = k0.stream + chunk@;
    let ghost at = full.len() - chunk@.len();
    proof {
        lemma_suffix_append(state.tail@, k0.stream, chunk@);
        assert(full.subrange(0, at) =~= k0.stream);
        assert(full.subrange(at, full.len() as int) =~= chunk@);
    }
    let symbols = if params.passes > 0 {
        find_matches_optimal(
            state,
            chunk,
            params,
            window,
            None,
            extra_dist,
            true,
            Ghost(full),
        )
    } else {
        find_matches_with_tail(state, chunk, params, window, Ghost(full))
    };
    proof {
        let w = window as int;
        let r = sym_run(full, w, at, k0.memory, symbols@)->Some_0;
        assert(Known { stream: full.subrange(0, at), memory: k0.memory } == k0);
        lemma_sym_run_forward(full, w, at, k0.memory, symbols@);
        assert forall|v: int| reaches(v, w, k0, chunk@.len() as int) implies #[trigger] carries(
            k0,
            symbols@,
            chunk@,
            state.known(),
            v,
        ) by {
            lemma_run_window(full, w, v, at, k0.memory, symbols@);
            lemma_run_carries(full, at, k0.memory, symbols@, r.1, state.known(), v);
        }
        assert forall|v: int| reaches(v, w, k0, chunk@.len() as int) implies #[trigger] runs_over(
            k0,
            chunk@,
            symbols@,
            v,
        ) by {
            lemma_run_window(full, w, v, at, k0.memory, symbols@);
        }
        reveal(chunk_step);
        let c0 = old(state).carried();
        let f0 = choose|f0: MatchFinder| #[trigger]
            finder_ready(
                c0.finder,
                c0.frame_len,
                c0.near + chunk@,
                c0.near.len() as int,
                true,
                f0,
            ) && if params.passes > 0 {
                optimal_result(
                    full,
                    c0.near + chunk@,
                    c0.near.len() as int,
                    params,
                    w,
                    own_ground(c0, chunk@, params.long_range, w),
                    c0.memory,
                    symbols@,
                    state.memory@,
                    f0,
                    state.finder->Some_0,
                )
            } else {
                c0.near.len() + chunk@.len() <= u32::MAX ==> greedy_result(
                    c0.near + chunk@,
                    c0.near.len() as int,
                    f0,
                    own_ground(c0, chunk@, params.long_range, w),
                    params,
                    w,
                    c0.memory,
                    symbols@,
                    state.memory@,
                ) && state.finder->Some_0.seen_since(
                    f0,
                    c0.near + chunk@,
                    c0.near.len() as int,
                    (c0.near + chunk@).len() as int,
                )
            };
        assert(chunk_found(
            c0,
            chunk@,
            params,
            w,
            symbols@,
            state.carried(),
            f0,
            state.finder->Some_0,
        ));
    }
    symbols
}

/// Distances up to `v` are all that a window, and the bytes there are, allow.
pub open spec fn reaches(v: int, window: int, k: Known, len: int) -> bool {
    v >= window || v >= k.stream.len() + len
}

/// No distance reaches farther than the window, and than the bytes there are.
pub open spec fn reach_of(window: int, k: Known, len: int) -> int {
    if window < k.stream.len() + len {
        window
    } else {
        k.stream.len() + len
    }
}

/// A run keeps to every window that holds what it may refer to.
proof fn lemma_run_window(
    full: Seq<u8>,
    window: int,
    v: int,
    p: int,
    g: Memory,
    syms: Seq<Symbol>,
)
    requires
        sym_run(full, window, p, g, syms) is Some,
        v >= window || v >= full.len(),
    ensures
        sym_run(full, v, p, g, syms) == sym_run(full, window, p, g, syms),
    decreases syms.len(),
{
    if syms.len() > 0 {
        lemma_run_window(full, window, v, p, g, syms.drop_last());
    }
}

/// The symbols encode `chunk` behind what is known.
pub open spec fn runs_over(k: Known, chunk: Seq<u8>, syms: Seq<Symbol>, window: int) -> bool {
    let full = k.stream + chunk;
    let r = sym_run(full, window, k.stream.len() as int, k.memory, syms);
    r is Some && r->Some_0.0 == full.len() && k.memory.reps.len() == 4
}

/// `p` ends in the block `b`, which holds the symbols from the `k`th on.
pub open spec fn ends_in_block(
    p: Seq<u8>,
    syms: Seq<Symbol>,
    q: Seq<u8>,
    b: Seq<u8>,
    k: int,
    last: bool,
    extra_dist: bool,
) -> bool {
    &&& 0 <= k < syms.len()
    &&& p == q + b
    &&& block_coded(b, syms.subrange(k, syms.len() as int), last, extra_dist)
}

/// `p` is blocks, each spelled with codes for its own symbols, which are all
/// of `syms` in order. Only the last one may end the stream.
#[verifier::opaque]
pub open spec fn stream_coded(p: Seq<u8>, syms: Seq<Symbol>, last: bool, extra_dist: bool) -> bool
    decreases syms.len(),
{
    if syms.len() == 0 {
        p.len() == 0 && !last
    } else {
        exists|q: Seq<u8>, b: Seq<u8>, k: int| #[trigger]
            ends_in_block(p, syms, q, b, k, last, extra_dist) && 0 <= k < syms.len()
                && stream_coded(q, syms.subrange(0, k), false, extra_dist)
    }
}

/// `p` decodes to the symbols, and is blocks spelled with codes for them.
pub open spec fn stream_written(p: Seq<u8>, syms: Seq<Symbol>, last: bool, extra_dist: bool) -> bool {
    stream_runs(p, syms, last, extra_dist) && stream_coded(p, syms, last, extra_dist)
}

proof fn lemma_coded_empty(extra_dist: bool)
    ensures
        stream_coded(Seq::empty(), Seq::empty(), false, extra_dist),
{
    reveal_with_fuel(stream_coded, 1);
}

proof fn lemma_coded_push(
    p: Seq<u8>,
    syms: Seq<Symbol>,
    b: Seq<u8>,
    more: Seq<Symbol>,
    last: bool,
    extra_dist: bool,
)
    requires
        stream_coded(p, syms, false, extra_dist),
        block_coded(b, more, last, extra_dist),
        more.len() > 0,
    ensures
        stream_coded(p + b, syms + more, last, extra_dist),
{
    reveal_with_fuel(stream_coded, 1);
    let all = syms + more;
    let k = syms.len() as int;
    assert(all.subrange(0, k) =~= syms);
    assert(all.subrange(k, all.len() as int) =~= more);
    assert(ends_in_block(p + b, all, p, b, k, last, extra_dist));
}

/// The last block of a stream, if it has any.
proof fn lemma_coded_last(p: Seq<u8>, syms: Seq<Symbol>, last: bool, extra_dist: bool) -> (r: (
    Seq<u8>,
    Seq<u8>,
    int,
))
    requires
        stream_coded(p, syms, last, extra_dist),
    ensures
        syms.len() == 0 ==> p.len() == 0 && !last,
        syms.len() > 0 ==> 0 <= r.2 < syms.len() && p == r.0 + r.1 && block_coded(
            r.1,
            syms.subrange(r.2, syms.len() as int),
            last,
            extra_dist,
        ) && stream_coded(r.0, syms.subrange(0, r.2), false, extra_dist),
{
    reveal_with_fuel(stream_coded, 1);
    if syms.len() == 0 {
        (p, p, 0)
    } else {
        choose|q: Seq<u8>, b: Seq<u8>, k: int| #[trigger]
            ends_in_block(p, syms, q, b, k, last, extra_dist) && 0 <= k < syms.len()
                && stream_coded(q, syms.subrange(0, k), false, extra_dist)
    }
}

proof fn lemma_coded_concat(
    p: Seq<u8>,
    syms: Seq<Symbol>,
    q: Seq<u8>,
    more: Seq<Symbol>,
    last: bool,
    extra_dist: bool,
)
    requires
        stream_coded(p, syms, false, extra_dist),
        stream_coded(q, more, last, extra_dist),
    ensures
        stream_coded(p + q, syms + more, last, extra_dist),
    decreases more.len(),
{
    let (r, b, k) = lemma_coded_last(q, more, last, extra_dist);
    if more.len() == 0 {
        assert(p + q =~= p);
        assert(syms + more =~= syms);
    } else {
        let start = more.subrange(0, k);
        let end = more.subrange(k, more.len() as int);
        lemma_coded_concat(p, syms, r, start, false, extra_dist);
        lemma_coded_push(p + r, syms + start, b, end, last, extra_dist);
        assert((p + r) + b =~= p + q);
        assert((syms + start) + end =~= syms + more);
    }
}

/// Encode symbols as blocks behind `output`, and stop early where the output
/// grows beyond `limit`. Tells whether all symbols were encoded.
fn encode_blocks(
    symbols: &Vec<Symbol>,
    output: &mut Vec<u8>,
    limit: usize,
    last: bool,
    extra_dist: bool,
    Ghost(before): Ghost<Seq<Symbol>>,
    Ghost(lead): Ghost<int>,
    Ghost(full): Ghost<Seq<u8>>,
    Ghost(window): Ghost<int>,
    Ghost(p): Ghost<int>,
    Ghost(g): Ghost<Memory>,
) -> (done: bool)
    requires
        symbols@.len() > 0,
        symbols_ok(symbols@),
        stream_written(old(output)@, before, false, extra_dist),
    ensures
        done ==> stream_written(final(output)@, before + symbols@, last, extra_dist),
        !done ==> final(output)@.len() > limit && exists|j: int|
            0 < j < symbols@.len() && stream_written(
                final(output)@,
                before + #[trigger] symbols@.subrange(0, j),
                false,
                extra_dist,
            ),
        fits_block(symbols@, lead, full, window, p, g, MAX_BLOCK_SIZE as int) ==> done,
        final(output)@.len() >= old(output)@.len(),
{
    let m: usize = symbols.len();
    let mut start: usize = 0;
    let mut done: bool = true;
    assert(before + symbols@.subrange(0, 0) =~= before);
    let ghost small = fits_block(symbols@, lead, full, window, p, g, MAX_BLOCK_SIZE as int);
    while start < m && done
        invariant
            start <= m,
            m == symbols@.len(),
            m > 0,
            symbols_ok(symbols@),
            small == fits_block(symbols@, lead, full, window, p, g, MAX_BLOCK_SIZE as int),
            small ==> done && (start == 0 || start == m),
            stream_written(
                output@,
                before + symbols@.subrange(0, start as int),
                last && start == m,
                extra_dist,
            ),
            !done ==> output@.len() > limit && 0 < start < m,
            output@.len() >= old(output)@.len(),
        decreases m - start, done as int,
    {
        let end: usize = find_block_end(
            symbols.as_slice(),
            start,
            MAX_BLOCK_SIZE,
            Ghost(lead),
            Ghost(full),
            Ghost(window),
            Ghost(p),
            Ghost(g),
        );
        let part = vstd::slice::slice_subrange(symbols.as_slice(), start, end);
        let is_last: bool = last && end >= m;
        proof {
            assert forall|i: int| 0 <= i < part@.len() implies crate::codec::symbols::symbol_ok(
                #[trigger] part@[i],
            ) by {
                assert(crate::codec::symbols::symbol_ok(symbols@[start + i]));
            }
        }
        let block = encode_block(part, is_last, extra_dist);
        proof {
            let s = before + symbols@.subrange(0, start as int);
            lemma_stream_push(output@, s, block@, part@, is_last, extra_dist);
            lemma_coded_push(output@, s, block@, part@, is_last, extra_dist);
            assert(s + part@ =~= before + symbols@.subrange(0, end as int));
        }
        let ghost o = output@;
        output.extend_from_slice(block.as_slice());
        assert(output@ =~= o + block@);
        start = end;
        // Once the compressed stream already exceeds the input size it can
        // never beat storing the input: stop before wasting more time.
        if start < m && output.len() > limit {
            done = false;
        }
    }
    assert(symbols@.subrange(0, m as int) =~= symbols@);
    done
}

proof fn lemma_carries_nothing(k: Known, window: int)
    ensures
        carries(k, Seq::empty(), Seq::empty(), k, window),
{
    assert forall|z: Lz, n: int|
        #![trigger apply_all(z, n, Seq::<Symbol>::empty())]
        agrees(k, z) && window <= n implies {
        let z2 = apply_all(z, n, Seq::<Symbol>::empty());
        &&& z2.out == z.out + Seq::<u8>::empty()
        &&& z2.filters == z.filters
        &&& agrees(k, z2)
        &&& short_of(z, n, Seq::<Symbol>::empty(), (z.out.len() + Seq::<u8>::empty().len()) as int)
    } by {
        assert(z.out + Seq::<u8>::empty() =~= z.out);
    }
}

/// Where the `k`-th chunk ends.
pub open spec fn chunk_end(len: int, chunk: int, k: nat) -> int
    decreases k,
{
    if k == 0 {
        0
    } else {
        let e = chunk_end(len, chunk, (k - 1) as nat) + chunk;
        if e < len {
            e
        } else {
            len
        }
    }
}

/// The progress reports of the first `k` chunks, and the position from which
/// on the next one is due.
pub open spec fn reports(len: int, chunk: int, k: nat) -> (Seq<(u64, u64)>, int)
    decreases k,
{
    if k == 0 {
        (Seq::empty(), 0)
    } else {
        let (s, next) = reports(len, chunk, (k - 1) as nat);
        let e = chunk_end(len, chunk, k);
        if e >= next {
            (
                s.push((e as u64, len as u64)),
                if e + 0x10000 > u64::MAX {
                    u64::MAX as int
                } else {
                    e + 0x10000
                },
            )
        } else {
            (s, next)
        }
    }
}

/// `log` holds `before` and the reports of some first chunks, of all of them
/// where `all` says so.
pub open spec fn reported(
    before: Seq<(u64, u64)>,
    log: Seq<(u64, u64)>,
    len: int,
    chunk: int,
    all: bool,
) -> bool {
    exists|k: nat|
        log == before + (#[trigger] reports(len, chunk, k)).0 && (all ==> chunk_end(len, chunk, k)
            == len)
}

/// `packed` encodes filter records and then `data`.
pub open spec fn encodes_led(
    s0: Known,
    lead: Seq<Symbol>,
    data: Seq<u8>,
    packed: Seq<u8>,
    s1: Known,
    window: int,
    last: bool,
    extra_dist: bool,
) -> bool {
    exists|syms: Seq<Symbol>|
        #[trigger] stream_runs(packed, lead + syms, last, extra_dist) && carries(
            s0,
            syms,
            data,
            s1,
            window,
        )
}

/// `packed` is the start of an encoding of filter records and then `data`: it
/// encodes the first of the records, or all of them and the first bytes.
pub open spec fn begins_led(
    s0: Known,
    lead: Seq<Symbol>,
    data: Seq<u8>,
    packed: Seq<u8>,
    window: int,
    extra_dist: bool,
) -> bool {
    exists|i: int, syms: Seq<Symbol>, m: int, s1: Known|
        {
            &&& 0 <= i <= lead.len()
            &&& i < lead.len() ==> syms.len() == 0
            &&& 0 <= m <= data.len()
            &&& lead.len() == 0 ==> m > 0
            &&& #[trigger] stream_runs(packed, lead.subrange(0, i) + syms, false, extra_dist)
            &&& #[trigger] carries(s0, syms, data.subrange(0, m), s1, window)
        }
}

/// `packed` encodes the first bytes of `data`, and is longer than all of it.
pub open spec fn outgrown(
    s0: Known,
    data: Seq<u8>,
    packed: Seq<u8>,
    window: int,
    extra_dist: bool,
) -> bool {
    packed.len() > data.len() && exists|m: int, s1: Known|
        0 < m <= data.len() && #[trigger] encodes(
            s0,
            data.subrange(0, m),
            packed,
            s1,
            window,
            false,
            extra_dist,
        )
}

/// Filter records that one block holds together with its data.
pub const MAX_LEADING_RECORDS: usize = 1000000;

/// Filter records that can be written.
pub open spec fn filter_records(lead: Seq<Symbol>) -> bool {
    symbols_ok(lead) && forall|i: int| 0 <= i < lead.len() ==> (#[trigger] lead[i]) is Filter
}

proof fn lemma_chunks_written(
    c0: Carried,
    lead: Seq<Symbol>,
    data: Seq<u8>,
    packed: Seq<u8>,
    params: LevelParams,
    window: int,
    chunk_size: int,
    last: bool,
    extra_dist: bool,
    parts: Seq<ChunkChoice>,
    j: int,
)
    requires
        chosen(data, chunk_size, params, window, parts),
        chained(c0, parts),
        0 <= j <= (lead + all_symbols(parts)).len(),
        ({
            let symbols = lead + all_symbols(parts);
            let n = data.len() as int;
            if j == symbols.len() && chunk_end(n, chunk_size, parts.len()) == n {
                stream_written(packed, symbols.subrange(0, j), last, extra_dist)
            } else {
                packed.len() > n && stream_written(packed, symbols.subrange(0, j), false, extra_dist)
            }
        }),
    ensures
        chunks_written(
            c0,
            lead,
            data,
            packed,
            params,
            window,
            chunk_size,
            last,
            extra_dist,
            parts_end(c0, parts),
        ),
{
    reveal(chunks_written);
    assert(chosen(data, chunk_size, params, window, parts));
    let cut = (lead + all_symbols(parts)).subrange(0, j);
}

/// Where encoding stops after the first `j` symbols of the chunk from `start`
/// to `end`, the start of the data is encoded.
proof fn lemma_outgrown_led(
    k0: Known,
    lead: Seq<Symbol>,
    data: Seq<u8>,
    start: int,
    end: int,
    syms: Seq<Symbol>,
    ki: Known,
    own: Seq<Symbol>,
    packed: Seq<u8>,
    j: int,
    window: int,
    extra_dist: bool,
)
    requires
        0 <= start <= end <= data.len(),
        carries(k0, syms, data.subrange(0, start), ki, window),
        start == 0 ==> syms.len() == 0,
        runs_over(ki, data.subrange(start, end), own, window),
        ({
            let before = if start == 0 {
                Seq::<Symbol>::empty()
            } else {
                lead + syms
            };
            let all = if start == 0 {
                lead + own
            } else {
                own
            };
            &&& 0 < j <= all.len()
            &&& stream_runs(packed, before + all.subrange(0, j), false, extra_dist)
        }),
    ensures
        begins_led(k0, lead, data, packed, window, extra_dist),
{
    let none = Seq::<Symbol>::empty();
    let chunk = data.subrange(start, end);
    let full = ki.stream + chunk;
    let at = ki.stream.len() as int;
    let whole = lead.len() as int;
    if start == 0 && j < whole {
        assert(none + (lead + own).subrange(0, j) =~= lead.subrange(0, j) + none);
        assert(syms =~= none);
        assert(stream_runs(packed, lead.subrange(0, j) + syms, false, extra_dist));
    } else {
        let count = if start == 0 {
            j - whole
        } else {
            j
        };
        let part = own.subrange(0, count);
        lemma_run_prefix(full, window, at, ki.memory, own, count);
        lemma_sym_run_forward(full, window, at, ki.memory, part);
        let (q, h) = sym_run(full, window, at, ki.memory, part)->Some_0;
        lemma_part_carries(full, at, ki.memory, part, q, h, window);
        let s1 = Known { stream: full.subrange(0, q), memory: h };
        assert(full.subrange(0, at) =~= ki.stream);
        assert(Known { stream: full.subrange(0, at), memory: ki.memory } == ki);
        let m = start + (q - at);
        assert(full.subrange(at, q) =~= data.subrange(start, m));
        lemma_carries_concat(
            k0,
            syms,
            data.subrange(0, start),
            ki,
            part,
            data.subrange(start, m),
            s1,
            window,
        );
        assert(data.subrange(0, start) + data.subrange(start, m) =~= data.subrange(0, m));
        let more = syms + part;
        assert(lead.subrange(0, whole) =~= lead);
        if start == 0 {
            assert(none + (lead + own).subrange(0, j) =~= lead.subrange(0, whole) + more);
        } else {
            assert((lead + syms) + own.subrange(0, j) =~= lead.subrange(0, whole) + more);
        }
        assert(stream_runs(packed, lead.subrange(0, whole) + more, false, extra_dist));
        assert(carries(k0, more, data.subrange(0, m), s1, window));
    }
}

/// Encode `data`, not empty, chunk by chunk, behind the given filter records.
#[verifier::rlimit(60)]
#[verifier::spinoff_prover]
pub(crate) fn encode_chunks(
    data: &[u8],
    lead: &Vec<Symbol>,
    params: LevelParams,
    window: usize,
    chunk_size: usize,
    state: &mut EncoderState,
    is_final: bool,
    progress: &mut Vec<(u64, u64)>,
    extra_dist: bool,
) -> (output: Vec<u8>)
    requires
        old(state).wf(),
        params.max_match <= MAX_MATCH,
        data@.len() > 0,
        chunk_size > 0,
        filter_records(lead@),
    ensures
        final(state).wf(),
        chunks_written(
            old(state).carried(),
            lead@,
            data@,
            output@,
            params,
            window as int,
            chunk_size as int,
            is_final,
            extra_dist,
            final(state).carried(),
        ),
        keeps_window(
            old(state).carried(),
            data@,
            output@,
            final(state).carried(),
            params,
            window as int,
            chunk_size as int,
        ),
        encodes_led(
            old(state).known(),
            lead@,
            data@,
            output@,
            final(state).known(),
            reach_of(window as int, old(state).known(), data@.len() as int),
            is_final,
            extra_dist,
        ) || output@.len() > data@.len() && begins_led(
            old(state).known(),
            lead@,
            data@,
            output@,
            reach_of(window as int, old(state).known(), data@.len() as int),
            extra_dist,
        ),
        data@.len() <= chunk_size && data@.len() <= MAX_BLOCK_SIZE && lead@.len()
            <= MAX_LEADING_RECORDS ==> encodes_led(
            old(state).known(),
            lead@,
            data@,
            output@,
            final(state).known(),
            reach_of(window as int, old(state).known(), data@.len() as int),
            is_final,
            extra_dist,
        ),
        reported(
            old(progress)@,
            final(progress)@,
            data@.len() as int,
            chunk_size as int,
            output@.len() <= data@.len(),
        ),
{
    let n: usize = data.len();
    let ghost k0 = state.known();
    let ghost c0 = state.carried();
    let ghost v = reach_of(window as int, k0, n as int);
    let ghost small = n <= chunk_size && n <= MAX_BLOCK_SIZE && lead@.len() <= MAX_LEADING_RECORDS;
    let ghost none = Seq::<Symbol>::empty();
    let mut output: Vec<u8> = Vec::new();
    let mut start: usize = 0;
    let mut next_report: u64 = 0;
    let mut complete: bool = true;
    let ghost mut syms = none;
    let ghost mut k: nat = 0;
    let ghost mut parts: Seq<ChunkChoice> = Seq::empty();
    let ghost w = window as int;
    let ghost cs = chunk_size as int;
    proof {
        lemma_no_choice(data@, cs, params, w, c0);
        lemma_stream_empty(extra_dist);
        lemma_coded_empty(extra_dist);
        lemma_carries_nothing(k0, v);
        assert(output@ =~= Seq::<u8>::empty());
        assert(data@.subrange(0, 0) =~= Seq::<u8>::empty());
        assert(progress@ + Seq::<(u64, u64)>::empty() =~= progress@);
    }
    while complete && start < n && output.len() <= n
        invariant
            n == data@.len(),
            n > 0,
            start <= n,
            chunk_size > 0,
            params.max_match <= MAX_MATCH,
            filter_records(lead@),
            state.wf(),
            none == Seq::<Symbol>::empty(),
            small == (n <= chunk_size && n <= MAX_BLOCK_SIZE && lead@.len() <= MAX_LEADING_RECORDS),
            small ==> complete && (start == 0 || start == n),
            start == 0 && complete ==> stream_written(output@, none, false, extra_dist) && syms
                == none,
            start == 0 && complete ==> output@.len() == 0,
            start > 0 && complete ==> stream_written(
                output@,
                lead@ + syms,
                is_final && start == n,
                extra_dist,
            ),
            complete ==> carries(
                k0,
                syms,
                data@.subrange(0, start as int),
                state.known(),
                v,
            ),
            c0 == old(state).carried(),
            v == reach_of(window as int, k0, n as int),
            state.known().stream.len() <= k0.stream.len() + start || !complete,
            k0 == old(state).known(),
            w == window,
            cs == chunk_size,
            complete ==> chosen(data@, cs, params, w, parts) && chained(c0, parts),
            complete ==> all_symbols(parts) == syms,
            complete ==> start == chunk_end(n as int, cs, parts.len()),
            complete ==> state.carried() == parts_end(c0, parts),
            !complete ==> parts.len() > 0 && chosen(data@, cs, params, w, parts) && chained(
                c0,
                parts,
            ) && state.carried() == parts_end(c0, parts),
            !complete ==> chunks_written(
                c0,
                lead@,
                data@,
                output@,
                params,
                w,
                cs,
                is_final,
                extra_dist,
                state.carried(),
            ),
            !complete ==> output@.len() > n && begins_led(
                k0,
                lead@,
                data@,
                output@,
                v,
                extra_dist,
            ),
            output@.len() <= n ==> start == chunk_end(n as int, chunk_size as int, k),
            next_report == reports(n as int, chunk_size as int, k).1,
            progress@ == old(progress)@ + reports(n as int, chunk_size as int, k).0,
        decreases n - start, complete as int,
    {
        let end: usize = if n - start < chunk_size { n } else { start + chunk_size };
        let chunk = vstd::slice::slice_subrange(data, start, end);
        let ghost ki = state.known();
        let ghost ci = state.carried();
        let ghost full = ki.stream + chunk@;
        let ghost before = if start == 0 {
            none
        } else {
            lead@ + syms
        };
        let ghost count = if start == 0 {
            lead@.len() as int
        } else {
            0
        };
        let mut found = find_symbols(state, chunk, params, window, extra_dist);
        let ghost own = found@;
        let ghost was = parts;
        proof {
            let c = ChunkChoice { before: ci, symbols: own, after: state.carried() };
            assert(chunk_at(data@, cs, parts.len()) =~= chunk@);
            assert(carries(ki, own, chunk@, state.known(), w));
            assert(carries(ki, own, chunk@, state.known(), v));
            assert(runs_over(ki, chunk@, own, w));
            assert(runs_over(ki, chunk@, own, v));
            lemma_choice_push(data@, cs, params, w, c0, parts, c);
            parts = parts.push(c);
        }
        let mut symbols: Vec<Symbol> = Vec::new();
        if start == 0 {
            symbols.extend_from_slice(lead.as_slice());
            assert(symbols@ =~= lead@);
        }
        symbols.append(&mut found);
        proof {
            assert(symbols@.subrange(count, symbols@.len() as int) =~= own);
            if start == 0 {
                assert(symbols@ =~= lead@ + own);
            } else {
                assert(symbols@ =~= own);
            }
            assert forall|i: int| 0 <= i < symbols@.len() implies crate::codec::symbols::symbol_ok(
                #[trigger] symbols@[i],
            ) by {
                if i < count {
                    assert(symbols@[i] == lead@[i]);
                } else {
                    assert(symbols@[i] == own[i - count]);
                }
            }
            if small {
                assert(runs_over(ki, chunk@, own, window as int));
                lemma_sym_run_forward(
                    full,
                    window as int,
                    ki.stream.len() as int,
                    ki.memory,
                    own,
                );
                assert(own.len() <= chunk@.len());
                assert(fits_block(
                    symbols@,
                    count,
                    full,
                    window as int,
                    ki.stream.len() as int,
                    ki.memory,
                    MAX_BLOCK_SIZE as int,
                ));
            }
        }
        let done: bool = encode_blocks(
            &symbols,
            &mut output,
            n,
            is_final && end >= n,
            extra_dist,
            Ghost(before),
            Ghost(count),
            Ghost(full),
            Ghost(window as int),
            Ghost(ki.stream.len() as int),
            Ghost(ki.memory),
        );
        if done {
            proof {
                lemma_carries_concat(
                    k0,
                    syms,
                    data@.subrange(0, start as int),
                    ki,
                    own,
                    chunk@,
                    state.known(),
                    v,
                );
                assert(data@.subrange(0, start as int) + chunk@ =~= data@.subrange(0, end as int));
                assert(before + symbols@ =~= lead@ + (syms + own));
                syms = syms + own;
            }
            start = end;
            if output.len() <= n {
                proof {
                    k = k + 1;
                }
                if end as u64 >= next_report {
                    progress.push((end as u64, n as u64));
                    next_report = (end as u64).saturating_add(0x10000);
                }
                assert(progress@ =~= old(progress)@ + reports(n as int, chunk_size as int, k).0);
            }
        } else {
            complete = false;
            proof {
                let j = choose|j: int|
                    0 < j < symbols@.len() && stream_written(
                        output@,
                        before + #[trigger] symbols@.subrange(0, j),
                        false,
                        extra_dist,
                    );
                let whole = lead@ + all_symbols(parts);
                assert(whole =~= before + symbols@);
                let m = before.len() + j;
                assert(whole.subrange(0, m as int) =~= before + symbols@.subrange(0, j));
                assert(m < whole.len());
                lemma_chunks_written(
                    c0,
                    lead@,
                    data@,
                    output@,
                    params,
                    w,
                    cs,
                    is_final,
                    extra_dist,
                    parts,
                    m as int,
                );
                lemma_outgrown_led(
                    k0,
                    lead@,
                    data@,
                    start as int,
                    end as int,
                    syms,
                    ki,
                    own,
                    output@,
                    j,
                    v,
                    extra_dist,
                );
            }
        }
    }
    proof {
        if complete {
            let whole = lead@ + all_symbols(parts);
            assert(whole.subrange(0, whole.len() as int) =~= lead@ + syms);
            lemma_chunks_written(
                c0,
                lead@,
                data@,
                output@,
                params,
                w,
                cs,
                is_final,
                extra_dist,
                parts,
                whole.len() as int,
            );
        }
        if complete && start == n {
            assert(data@.subrange(0, n as int) =~= data@);
            assert(stream_runs(output@, lead@ + syms, is_final, extra_dist));
        } else if complete {
            assert(lead@.subrange(0, lead@.len() as int) =~= lead@);
            assert(stream_runs(
                output@,
                lead@.subrange(0, lead@.len() as int) + syms,
                false,
                extra_dist,
            ));
            assert(carries(
                k0,
                syms,
                data@.subrange(0, start as int),
                state.known(),
                v,
            ));
        }
        lemma_parts_carry(data@, cs, params, w, c0, parts);
        assert(keeps_window(c0, data@, output@, state.carried(), params, w, cs)) by {
            let e = chunk_end(n as int, cs, parts.len());
        }
    }
    output
}

proof fn lemma_carries_wider(
    s0: Known,
    syms: Seq<Symbol>,
    data: Seq<u8>,
    s1: Known,
    window: int,
    wider: int,
)
    requires
        carries(s0, syms, data, s1, window),
        window <= wider,
    ensures
        carries(s0, syms, data, s1, wider),
{
}

pub proof fn lemma_encodes_led_wider(
    s0: Known,
    lead: Seq<Symbol>,
    data: Seq<u8>,
    packed: Seq<u8>,
    s1: Known,
    window: int,
    wider: int,
    last: bool,
    extra_dist: bool,
)
    requires
        encodes_led(s0, lead, data, packed, s1, window, last, extra_dist),
        window <= wider,
    ensures
        encodes_led(s0, lead, data, packed, s1, wider, last, extra_dist),
{
    let syms = choose|syms: Seq<Symbol>|
        #[trigger] stream_runs(packed, lead + syms, last, extra_dist) && carries(
            s0,
            syms,
            data,
            s1,
            window,
        );
    lemma_carries_wider(s0, syms, data, s1, window, wider);
    assert(stream_runs(packed, lead + syms, last, extra_dist) && carries(
        s0,
        syms,
        data,
        s1,
        wider,
    ));
}

pub proof fn lemma_begins_led_wider(
    s0: Known,
    lead: Seq<Symbol>,
    data: Seq<u8>,
    packed: Seq<u8>,
    window: int,
    wider: int,
    extra_dist: bool,
)
    requires
        begins_led(s0, lead, data, packed, window, extra_dist),
        window <= wider,
    ensures
        begins_led(s0, lead, data, packed, wider, extra_dist),
{
    let (i, syms, m, s1) = choose|i: int, syms: Seq<Symbol>, m: int, s1: Known|
        {
            &&& 0 <= i <= lead.len()
            &&& i < lead.len() ==> syms.len() == 0
            &&& 0 <= m <= data.len()
            &&& lead.len() == 0 ==> m > 0
            &&& #[trigger] stream_runs(packed, lead.subrange(0, i) + syms, false, extra_dist)
            &&& #[trigger] carries(s0, syms, data.subrange(0, m), s1, window)
        };
    lemma_carries_wider(s0, syms, data.subrange(0, m), s1, window, wider);
    assert(stream_runs(packed, lead.subrange(0, i) + syms, false, extra_dist));
    assert(carries(s0, syms, data.subrange(0, m), s1, wider));
}

proof fn lemma_begins_unled(
    s0: Known,
    data: Seq<u8>,
    packed: Seq<u8>,
    window: int,
    wider: int,
    extra_dist: bool,
)
    requires
        begins_led(s0, Seq::empty(), data, packed, window, extra_dist),
        window <= wider,
        packed.len() > data.len(),
    ensures
        outgrown(s0, data, packed, wider, extra_dist),
{
    let lead = Seq::<Symbol>::empty();
    let (i, syms, m, s1) = choose|i: int, syms: Seq<Symbol>, m: int, s1: Known|
        {
            &&& 0 <= i <= lead.len()
            &&& i < lead.len() ==> syms.len() == 0
            &&& 0 <= m <= data.len()
            &&& lead.len() == 0 ==> m > 0
            &&& #[trigger] stream_runs(packed, lead.subrange(0, i) + syms, false, extra_dist)
            &&& #[trigger] carries(s0, syms, data.subrange(0, m), s1, window)
        };
    lemma_carries_wider(s0, syms, data.subrange(0, m), s1, window, wider);
    assert(lead.subrange(0, i) + syms =~= syms);
    assert(stream_runs(packed, syms, false, extra_dist) && carries(
        s0,
        syms,
        data.subrange(0, m),
        s1,
        wider,
    ));
    assert(encodes(s0, data.subrange(0, m), packed, s1, wider, false, extra_dist));
}

pub proof fn lemma_encodes_unled(
    s0: Known,
    data: Seq<u8>,
    packed: Seq<u8>,
    s1: Known,
    window: int,
    last: bool,
    extra_dist: bool,
)
    requires
        encodes_led(s0, Seq::empty(), data, packed, s1, window, last, extra_dist),
    ensures
        encodes(s0, data, packed, s1, window, last, extra_dist),
{
    let lead = Seq::<Symbol>::empty();
    let syms = choose|syms: Seq<Symbol>|
        #[trigger] stream_runs(packed, lead + syms, last, extra_dist) && carries(
            s0,
            syms,
            data,
            s1,
            window,
        );
    assert(lead + syms =~= syms);
    assert(stream_runs(packed, syms, last, extra_dist) && carries(s0, syms, data, s1, window));
}

/// A last block without symbols ends a stream.
pub proof fn lemma_empty_block_encodes(k: Known, b: Seq<u8>, window: int, extra_dist: bool)
    requires
        block_runs(b, Seq::empty(), true, extra_dist),
    ensures
        encodes(k, Seq::empty(), b, k, window, true, extra_dist),
{
    let none = Seq::<Symbol>::empty();
    lemma_carries_nothing(k, window);
    assert forall|data: Seq<u8>, pos: int, tabs: Option<CodeLengths>, z: Lz, n: int, goal: int|
        stands_at(data, pos, b) && short_of(z, n, none, goal) && (z.out.len() < goal) implies {
        let r = #[trigger] run_blocks(data, pos, tabs, z, n, extra_dist, goal);
        r is Ok && r->Ok_0.0 == apply_all(z, n, none)
    } by {
        let e = run_block(data, pos, tabs, z, n, extra_dist, goal);
        assert(e is Ok && e->Ok_0.lz == z && e->Ok_0.last);
    }
    assert(stream_runs(b, none, true, extra_dist));
}

/// What one call of the encoder promises: its output decodes to `data`, or it
/// has outgrown `data` and breaks off. Input that fits one block is always
/// encoded.
pub open spec fn call_encodes(
    k0: Known,
    data: Seq<u8>,
    packed: Seq<u8>,
    k1: Known,
    window: int,
    chunk_size: int,
    is_final: bool,
    extra_dist: bool,
) -> bool {
    if data.len() == 0 {
        k1 == k0 && encodes(k0, data, packed, k0, window, is_final, extra_dist)
    } else {
        &&& encodes(k0, data, packed, k1, window, is_final, extra_dist) || outgrown(
            k0,
            data,
            packed,
            window,
            extra_dist,
        )
        &&& data.len() <= MAX_BLOCK_SIZE && data.len() <= chunk_size ==> encodes(
            k0,
            data,
            packed,
            k1,
            window,
            is_final,
            extra_dist,
        )
    }
}

/// What a call carries on: the end of the data, as far as the near search
/// looks back, and the history continued with it, where it is kept. Of all
/// the data, unless the output has outgrown it.
pub open spec fn keeps_window(
    c0: Carried,
    data: Seq<u8>,
    packed: Seq<u8>,
    c1: Carried,
    params: LevelParams,
    window: int,
    chunk_size: int,
) -> bool {
    exists|k: nat|
        {
            let e = #[trigger] chunk_end(data.len() as int, chunk_size, k);
            &&& k > 0
            &&& packed.len() <= data.len() ==> e == data.len()
            &&& c1.near == last_bytes(c0.near + data.subrange(0, e), near_window(window))
            &&& if params.long_range {
                keeps_history(c0.far, data.subrange(0, e), c1.far)
            } else {
                c1.far.len() == 0
            }
        }
}

/// `b` is one block without symbols that ends its stream.
pub open spec fn is_end_block(b: Seq<u8>, extra_dist: bool) -> bool {
    exists|body: Seq<u8>, tw: Seq<bool>, t: CodeLengths| #[trigger]
        block_spells(b, body, tw, t, Seq::empty(), true, extra_dist)
}

/// What one call of the encoder at a level promises: [`call_encodes`], that
/// the symbols written are those that the level's search finds, and what is
/// carried on. No data is written as nothing, or as an end block where it ends
/// the stream.
pub open spec fn level_encodes(
    c0: Carried,
    data: Seq<u8>,
    packed: Seq<u8>,
    c1: Carried,
    method: u8,
    dict_size_log: u8,
    chunk_size: int,
    is_final: bool,
    extra_dist: bool,
) -> bool {
    &&& call_encodes(
        c0.known(),
        data,
        packed,
        c1.known(),
        reach_of(dictionary_size(dict_size_log) as int, c0.known(), data.len() as int),
        chunk_size,
        is_final,
        extra_dist,
    )
    &&& if data.len() == 0 {
        &&& c1 == c0
        &&& if is_final {
            is_end_block(packed, extra_dist)
        } else {
            packed.len() == 0
        }
    } else {
        &&& written_at_level(
            c0,
            Seq::empty(),
            data,
            packed,
            method,
            dict_size_log,
            chunk_size,
            is_final,
            extra_dist,
            c1,
        )
        &&& keeps_window(
            c0,
            data,
            packed,
            c1,
            spec_level_params(method),
            window_of(dict_size_log),
            chunk_size,
        )
    }
}

/// `chunk_size`, at least one.
pub open spec fn at_least_one(n: usize) -> int {
    if n == 0 {
        1
    } else {
        n as int
    }
}

fn encode_with_state(
    data: &[u8],
    method: u8,
    dict_size_log: u8,
    chunk_size: usize,
    state: &mut EncoderState,
    is_final: bool,
    progress: &mut Vec<(u64, u64)>,
    extra_dist: bool,
) -> (r: Vec<u8>)
    requires
        old(state).wf(),
        dict_size_log <= 46,
    ensures
        final(state).wf(),
        level_encodes(
            old(state).carried(),
            data@,
            r@,
            final(state).carried(),
            method,
            dict_size_log,
            at_least_one(chunk_size),
            is_final,
            extra_dist,
        ),
        data@.len() == 0 ==> final(progress)@ == old(progress)@,
        data@.len() > 0 ==> reported(
            old(progress)@,
            final(progress)@,
            data@.len() as int,
            at_least_one(chunk_size),
            r@.len() <= data@.len(),
        ),
{
    if data.len() == 0 {
        proof {
            assert(data@ =~= Seq::<u8>::empty());
        }
        if !is_final {
            let none: Vec<u8> = Vec::new();
            proof {
                let wide = reach_of(
                    dictionary_size(dict_size_log) as int,
                    state.known(),
                    0,
                );
                lemma_stream_empty(extra_dist);
                lemma_carries_nothing(state.known(), wide);
                assert(none@ =~= Seq::<u8>::empty());
                assert(stream_runs(none@, Seq::<Symbol>::empty(), false, extra_dist) && carries(
                    state.known(),
                    Seq::<Symbol>::empty(),
                    data@,
                    state.known(),
                    wide,
                ));
            }
            return none;
        }
        let b = encode_empty_block(extra_dist);
        proof {
            lemma_empty_block_encodes(
                state.known(),
                b@,
                reach_of(dictionary_size(dict_size_log) as int, state.known(), 0),
                extra_dist,
            );
        }
        return b;
    }
    let params = level_params(method);
    let window: usize = window_size(dict_size_log);
    let chunk: usize = if chunk_size == 0 { 1 } else { chunk_size };
    let lead: Vec<Symbol> = Vec::new();
    let r = encode_chunks(
        data,
        &lead,
        params,
        window,
        chunk,
        state,
        is_final,
        progress,
        extra_dist,
    );
    proof {
        let k0 = old(state).known();
        let k1 = state.known();
        let len = data@.len() as int;
        let near = reach_of(window as int, k0, len);
        let wide = reach_of(dictionary_size(dict_size_log) as int, k0, len);
        assert(lead@ =~= Seq::<Symbol>::empty());
        if encodes_led(k0, lead@, data@, r@, k1, near, is_final, extra_dist) {
            lemma_encodes_led_wider(
                k0,
                lead@,
                data@,
                r@,
                k1,
                near,
                wide,
                is_final,
                extra_dist,
            );
            lemma_encodes_unled(k0, data@, r@, k1, wide, is_final, extra_dist);
        } else {
            lemma_begins_unled(k0, data@, r@, near, wide, extra_dist);
        }
    }
    r
}

/// Encode `data` in bounded chunks, optionally carrying encoder state
/// across calls (solid archives and multi-chunk files). `is_final` marks
/// the last call of one member so only its final block carries the
/// end-of-stream flag. Returns the compressed stream; callers fall back to
/// STORE when the result is not smaller than the input.
///
/// Progress is reported as `(bytes_processed, total_bytes)`, appended to
/// `progress`. `extra_dist` selects the RAR7 (v70) distance code table.
pub fn encode_chunked(
    data: &[u8],
    method: u8,
    dict_size_log: u8,
    chunk_size: usize,
    state: Option<&mut EncoderState>,
    is_final: bool,
    progress: Option<&mut Vec<(u64, u64)>>,
    extra_dist: bool,
) -> (r: Result<Vec<u8>, String>)
    requires
        dict_size_log <= 46,
        match state {
            Some(s) => s.wf(),
            None => true,
        },
    ensures
        r is Ok,
        match state {
            Some(s) => final(s).wf() && level_encodes(
                s.carried(),
                data@,
                r->Ok_0@,
                final(s).carried(),
                method,
                dict_size_log,
                at_least_one(chunk_size),
                is_final,
                extra_dist,
            ),
            None => exists|c1: Carried| #[trigger]
                level_encodes(
                    nothing_carried(),
                    data@,
                    r->Ok_0@,
                    c1,
                    method,
                    dict_size_log,
                    at_least_one(chunk_size),
                    is_final,
                    extra_dist,
                ),
        },
        match progress {
            Some(p) => if data@.len() == 0 {
                final(p)@ == p@
            } else {
                reported(
                    p@,
                    final(p)@,
                    data@.len() as int,
                    at_least_one(chunk_size),
                    r->Ok_0@.len() <= data@.len(),
                )
            },
            None => true,
        },
{
    let mut unused: Vec<(u64, u64)> = Vec::new();
    let log: &mut Vec<(u64, u64)> = match progress {
        Some(p) => p,
        None => &mut unused,
    };
    match state {
        Some(s) => {
            let out = encode_with_state(
                data,
                method,
                dict_size_log,
                chunk_size,
                s,
                is_final,
                log,
                extra_dist,
            );
            Ok(out)
        },
        None => {
            let mut fresh = EncoderState::default();
            let out = encode_with_state(
                data,
                method,
                dict_size_log,
                chunk_size,
                &mut fresh,
                is_final,
                log,
                extra_dist,
            );
            let ghost k = fresh.carried();
            let res: Result<Vec<u8>, String> = Ok(out);
            assert(level_encodes(
                nothing_carried(),
                data@,
                res->Ok_0@,
                k,
                method,
                dict_size_log,
                at_least_one(chunk_size),
                is_final,
                extra_dist,
            ));
            res
        },
    }
}

/// A stretch of a stream behind another makes it longer.
#[verifier::rlimit(40)]
pub proof fn lemma_stream_concat(
    p: Seq<u8>,
    syms: Seq<Symbol>,
    q: Seq<u8>,
    more: Seq<Symbol>,
    last: bool,
    extra_dist: bool,
)
    requires
        stream_runs(p, syms, false, extra_dist),
        stream_runs(q, more, last, extra_dist),
    ensures
        stream_runs(p + q, syms + more, last, extra_dist),
{
    assert forall|data: Seq<u8>, pos: int, tabs: Option<CodeLengths>, z: Lz, n: int, goal: int|
        stands_at(data, pos, p + q) && short_of(z, n, syms + more, goal) && (z.out.len()
            < goal) implies {
        let r = #[trigger] run_blocks(data, pos, tabs, z, n, extra_dist, goal);
        let z2 = apply_all(z, n, syms + more);
        if last || z2.out.len() >= goal {
            r is Ok && r->Ok_0.0 == z2
        } else {
            resumes(
                r,
                data,
                byte_align(pos) + 8 * (p + q).len(),
                z2,
                n,
                extra_dist,
                goal,
            )
        }
    } by {
        let r = run_blocks(data, pos, tabs, z, n, extra_dist, goal);
        let z1 = apply_all(z, n, syms);
        let z2 = apply_all(z, n, syms + more);
        let m = byte_align(pos) + 8 * p.len();
        lemma_stands_split(data, pos, p, q);
        lemma_short_concat(z, n, syms, more, goal);
        lemma_apply_concat(z, n, syms, more);
        if z1.out.len() < goal {
            assert(resumes(r, data, m, z1, n, extra_dist, goal));
            let t1 = choose|t: Option<CodeLengths>|
                r == #[trigger] run_blocks(data, m, t, z1, n, extra_dist, goal);
            let r1 = run_blocks(data, m, t1, z1, n, extra_dist, goal);
            assert(byte_align(m) + 8 * q.len() == byte_align(pos) + 8 * (p + q).len());
        } else {
            assert(more.len() == 0);
            assert(syms + more =~= syms);
        }
    }
}

/// Calls chain: what a member's calls produce, one after the other, encodes
/// the data of all of them.
pub proof fn lemma_encodes_concat(
    s0: Known,
    d: Seq<u8>,
    p: Seq<u8>,
    s1: Known,
    e: Seq<u8>,
    q: Seq<u8>,
    s2: Known,
    window: int,
    last: bool,
    extra_dist: bool,
)
    requires
        encodes(s0, d, p, s1, window, false, extra_dist),
        encodes(s1, e, q, s2, window, last, extra_dist),
    ensures
        encodes(s0, d + e, p + q, s2, window, last, extra_dist),
{
    let a = choose|syms: Seq<Symbol>|
        #[trigger] stream_runs(p, syms, false, extra_dist) && carries(s0, syms, d, s1, window);
    let b = choose|syms: Seq<Symbol>|
        #[trigger] stream_runs(q, syms, last, extra_dist) && carries(s1, syms, e, s2, window);
    lemma_stream_concat(p, a, q, b, last, extra_dist);
    lemma_carries_concat(s0, a, d, s1, b, e, s2, window);
    assert(stream_runs(p + q, a + b, last, extra_dist) && carries(
        s0,
        a + b,
        d + e,
        s2,
        window,
    ));
}

// ── Slices encoded on their own ────────────────────────────────────────────

/// A four-byte window, read as a number.
pub open spec fn window_value(s: Seq<u8>, off: int) -> u32 {
    (s[off] + s[off + 1] * 256 + s[off + 2] * 65536 + s[off + 3] * 16777216) as u32
}

/// The distinct values of the first `k` four-byte windows, one every sixteen
/// bytes.
pub open spec fn sampled_windows(s: Seq<u8>, k: nat) -> Set<u32>
    decreases k,
{
    if k == 0 {
        Set::empty()
    } else {
        sampled_windows(s, (k - 1) as nat).insert(window_value(s, 16 * (k - 1)))
    }
}

/// How many windows of four bytes, one every sixteen bytes, lie in `len`
/// bytes.
pub open spec fn window_count(len: int) -> nat {
    if len < 4 {
        0
    } else {
        ((len - 4) / 16 + 1) as nat
    }
}

/// The tail's sampled windows are (almost) all distinct.
pub open spec fn tail_is_incompressible(tail: Seq<u8>) -> bool {
    let len = if tail.len() < 262144 {
        tail.len() as int
    } else {
        262144
    };
    let k = window_count(len);
    k >= 4096 && sampled_windows(tail, k).len() * 100 >= k * 95
}

/// Cheap probe: would searching this tail ever pay off? A tail whose sampled
/// windows are (almost) all distinct has no long repeats.
fn mt_tail_is_incompressible(tail: &[u8]) -> (r: bool)
    ensures
        r == tail_is_incompressible(tail@),
{
    broadcast use vstd::std_specs::hash::group_hash_axioms;

    let len: usize = if tail.len() < 262144 { tail.len() } else { 262144 };
    let mut seen: HashSet<u32> = HashSet::new();
    let mut windows: usize = 0;
    let mut off: usize = 0;
    while len >= 4 && off <= len - 4
        invariant
            len <= tail@.len(),
            len <= 262144,
            off == 16 * windows,
            off <= len + 16,
            len >= 4 ==> windows <= window_count(len as int),
            seen@ == sampled_windows(tail@, windows as nat),
            seen@.finite(),
        decreases len + 16 - off,
    {
        let v: u32 = tail[off] as u32 + tail[off + 1] as u32 * 256 + tail[off + 2] as u32 * 65536
            + tail[off + 3] as u32 * 16777216;
        seen.insert(v);
        windows = windows + 1;
        off = off + 16;
    }
    let distinct: usize = seen.len();
    proof {
        lemma_sampled_bound(tail@, windows as nat);
    }
    windows >= 4096 && distinct * 100 >= windows * 95
}

proof fn lemma_sampled_bound(s: Seq<u8>, k: nat)
    ensures
        sampled_windows(s, k).finite(),
        sampled_windows(s, k).len() <= k,
    decreases k,
{
    if k > 0 {
        lemma_sampled_bound(s, (k - 1) as nat);
    }
}

/// Most bytes before a slice that its search looks back at.
pub const SLICE_TAIL_MAX: usize = 2097152;

/// The bytes before position `s0` of `data`, which follows `near`, that the
/// search of a slice looks back at.
pub open spec fn slice_tail(near: Seq<u8>, data: Seq<u8>, s0: int, window: int) -> Seq<u8> {
    last_bytes(
        near + data.subrange(0, s0),
        if window < SLICE_TAIL_MAX {
            window
        } else {
            SLICE_TAIL_MAX as int
        },
    )
}

/// The last `want` bytes before position `s0` of `data`, which follows
/// `seed_tail`.
fn slice_context(data: &[u8], s0: usize, seed_tail: &[u8], want: usize, Ghost(k): Ghost<Seq<u8>>) -> (tail: Vec<
    u8,
>)
    requires
        s0 <= data@.len(),
        is_suffix(seed_tail@, k),
    ensures
        is_suffix(tail@, k + data@.subrange(0, s0 as int)),
        tail@ == last_bytes(seed_tail@ + data@.subrange(0, s0 as int), want as int),
{
    let ghost all = k + data@.subrange(0, s0 as int);
    if s0 >= want {
        let t = vstd::slice::slice_subrange(data, s0 - want, s0);
        let tail = vstd::slice::slice_to_vec(t);
        assert(all.subrange(all.len() - tail@.len(), all.len() as int) =~= tail@);
        assert(tail@ =~= last_bytes(seed_tail@ + data@.subrange(0, s0 as int), want as int));
        tail
    } else {
        let need: usize = want - s0;
        let st: usize = seed_tail.len();
        let take: usize = if need < st { need } else { st };
        let mut v: Vec<u8> = Vec::new();
        v.extend_from_slice(vstd::slice::slice_subrange(seed_tail, st - take, st));
        v.extend_from_slice(vstd::slice::slice_subrange(data, 0, s0));
        proof {
            let head = seed_tail@.subrange(st - take, st as int);
            assert(v@ =~= head + data@.subrange(0, s0 as int));
            assert(v@ =~= last_bytes(seed_tail@ + data@.subrange(0, s0 as int), want as int));
            assert(is_suffix(head, seed_tail@));
            lemma_suffix_trans(head, seed_tail@, k);
            lemma_suffix_append(head, k, data@.subrange(0, s0 as int));
        }
        v
    }
}

/// Knowledge of the stream, nothing being known of the decoder's memory.
pub open spec fn stream_known(stream: Seq<u8>) -> Known {
    Known { stream, memory: nothing_known().memory }
}

/// What slices of one window of data share: the bytes before the window, and
/// a long-range history that holds the window at its end.
pub struct SliceContext {
    tail: Vec<u8>,
    shared: LongRange,
    past: Ghost<Seq<u8>>,
}

impl SliceContext {
    /// What is known of the stream before the window.
    pub closed spec fn past(&self) -> Seq<u8> {
        self.past@
    }

    /// The bytes before the window that the near search looks back at.
    pub closed spec fn near(&self) -> Seq<u8> {
        self.tail@
    }

    /// The long-range history, the window included.
    pub closed spec fn far(&self) -> Seq<u8> {
        self.shared.history()
    }

    /// The longest distance that a search of the history reports.
    pub closed spec fn far_max(&self) -> int {
        self.shared.max_distance()
    }

    pub closed spec fn wf(&self, data: Seq<u8>) -> bool {
        &&& self.shared.wf()
        &&& is_suffix(self.tail@, self.past@)
        &&& is_suffix(self.shared.history(), self.past@ + data)
    }

    /// Share what `seed` knows for the slices of `data`.
    pub fn new(seed: &EncoderState, data: &[u8], dict_size_log: u8) -> (c: SliceContext)
        requires
            seed.wf(),
            dict_size_log <= 46,
        ensures
            c.wf(data@),
            c.past() == seed.known().stream,
            c.near() == seed.carried().near,
            c.far() == history_after(seed.carried().far, data@),
            c.far_max() == window_of(dict_size_log),
    {
        let window: usize = window_size(dict_size_log);
        let ghost k = seed.known().stream;
        let mut shared = LongRange::new(window);
        if let Some(l) = &seed.long_range {
            let _ = l.hist_len();
            shared.push(l.hist_bytes());
            assert(Seq::<u8>::empty() + l.history() =~= l.history());
        } else {
            assert(k.subrange(k.len() as int, k.len() as int) =~= shared.history());
        }
        let ghost h = shared.history();
        shared.push(data);
        proof {
            lemma_suffix_append(h, k, data@);
            lemma_history_after(h, data@);
            lemma_suffix_trans(shared.history(), h + data@, k + data@);
        }
        let tail: Vec<u8> = seed.tail.clone();
        assert(tail@ =~= seed.tail@);
        SliceContext { tail, shared, past: Ghost(k) }
    }

    /// Continue the chain after the window: the tail is the end of the window
    /// (and of what was before it), the history is the shared one, and the
    /// repeat-distance cache is reset.
    pub fn finish(self, seed: &mut EncoderState, data: &[u8], dict_size_log: u8)
        requires
            self.wf(data@),
            dict_size_log <= 46,
        ensures
            final(seed).wf(),
            is_suffix(final(seed).known().stream, self.past() + data@),
            final(seed).carried() == (Carried {
                near: last_bytes(self.near() + data@, near_window(window_of(dict_size_log))),
                far: self.far(),
                ..nothing_carried()
            }),
    {
        let window: usize = window_size(dict_size_log);
        let keep: usize = if window < NEAR_WINDOW_MAX { window } else { NEAR_WINDOW_MAX };
        let n: usize = data.len();
        let ghost all = self.past@ + data@;
        let tail = slice_context(data, n, self.tail.as_slice(), keep, Ghost(self.past@));
        proof {
            assert(data@.subrange(0, n as int) =~= data@);
        }
        seed.tail = tail;
        seed.memory = EncoderMatchState { reps: [0, 0, 0, 0], last_length: 0 };
        seed.long_range = Some(self.shared);
        seed.finder = None;
        seed.frame_len = 0;
        proof {
            lemma_state_after(*seed, all);
            assert(seed.memory@.reps =~= nothing_known().memory.reps);
        }
    }
}

/// Encode one slice `[s0, e0)` of `data` on its own.
///
/// The slice is matched against the bytes before it (seeded with the entry
/// tail when it starts near the buffer head) and against a shared long-range
/// history that holds `data` at its end. Repeat-distance state starts fresh.
#[verifier::rlimit(60)]
#[verifier::spinoff_prover]
pub fn encode_mt_slice(
    data: &[u8],
    s0: usize,
    e0: usize,
    ctx: &SliceContext,
    method: u8,
    dict_size_log: u8,
    is_last_block_of_member: bool,
    extra_dist: bool,
) -> (out: Vec<u8>)
    requires
        dict_size_log <= 46,
        s0 < e0 <= data@.len(),
        ctx.wf(data@),
    ensures
        encodes(
            stream_known(ctx.past() + data@.subrange(0, s0 as int)),
            data@.subrange(s0 as int, e0 as int),
            out@,
            stream_known(ctx.past() + data@.subrange(0, e0 as int)),
            dictionary_size(dict_size_log) as int,
            is_last_block_of_member,
            extra_dist,
        ),
        exists|symbols: Seq<Symbol>|
            #[trigger] stream_written(out@, symbols, is_last_block_of_member, extra_dist)
                && slice_chosen(
                ctx.past(),
                ctx.near(),
                ctx.far(),
                ctx.far_max(),
                data@,
                s0 as int,
                e0 as int,
                spec_level_params(method),
                window_of(dict_size_log),
                symbols,
            ),
{
    let ghost k = ctx.past();
    let seed_tail = ctx.tail.as_slice();
    let shared = &ctx.shared;
    let params = level_params(method);
    let window: usize = window_size(dict_size_log);
    let want: usize = if window < SLICE_TAIL_MAX { window } else { SLICE_TAIL_MAX };
    let tail_ctx = slice_context(data, s0, seed_tail, want, Ghost(k));
    let seed: bool = !mt_tail_is_incompressible(tail_ctx.as_slice());
    let mut state = EncoderState {
        tail: tail_ctx,
        memory: EncoderMatchState { reps: [0, 0, 0, 0], last_length: 0 },
        long_range: None,
        finder: None,
        frame_len: 0,
    };
    let ghost tail0 = state.tail@;
    let ghost before = k + data@.subrange(0, s0 as int);
    let ghost full = k + data@.subrange(0, e0 as int);
    let chunk = vstd::slice::slice_subrange(data, s0, e0);
    let ghost at = full.len() - chunk@.len();
    proof {
        assert(before + chunk@ =~= full);
        lemma_suffix_append(state.tail@, before, chunk@);
        assert(full.subrange(0, at) =~= before);
        assert(full.subrange(at, full.len() as int) =~= chunk@);
        assert(state.hist() =~= Seq::<u8>::empty());
        assert(before.subrange(before.len() as int, before.len() as int) =~= state.hist());
        assert(state.tail@.subrange(0, state.tail@.len() as int) =~= state.tail@);
        assert(state.tail@.subrange(state.tail@.len() as int, state.tail@.len() as int)
            =~= state.hist());
        assert(state.wf());
        assert(state.memory@.reps =~= nothing_known().memory.reps);
    }
    let hist_len: usize = shared.hist_len();
    let behind: usize = data.len() - s0;
    let mut anchor: Option<usize> = None;
    if hist_len >= behind {
        let at_hist: usize = hist_len - behind;
        anchor = Some(at_hist);
        proof {
            let h = shared.history();
            let all = k + data@;
            assert(history_agrees(h, full, at, at_hist as int)) by {
                let s = all.subrange(all.len() - h.len(), all.len() as int);
                assert forall|j: int| 0 <= j < h.len() && at - at_hist + j < full.len() implies #[trigger] h[j]
                    == full[at - at_hist + j] by {
                    assert(s[j] == h[j]);
                    assert(all[all.len() - h.len() + j] == h[j]);
                    assert(at - at_hist + j == all.len() - h.len() + j);
                }
            }
        }
    }
    let probe: Option<SharedHistory<'_>> = match anchor {
        Some(a) => Some(SharedHistory { table: shared, anchor: a }),
        None => None,
    };
    let ghost start = state.carried();
    let symbols = slice_symbols(
        &mut state,
        chunk,
        params,
        window,
        probe,
        extra_dist,
        seed,
        Ghost(full),
    );
    let mut out: Vec<u8> = Vec::new();
    proof {
        reveal(slice_chosen);
        let frame = tail0 + chunk@;
        assert(tail0 == slice_tail(ctx.near(), data@, s0 as int, window as int));
        let far = slice_ground(
            ctx.far(),
            data@.len() as int,
            s0 as int,
            tail0.len() as int,
            frame.len() as int,
            params.long_range,
            ctx.far_max(),
            window as int,
        );
        assert(far == slice_history(start, chunk@, probe, params.long_range, window as int));
        let f0 = choose|f0: MatchFinder| #[trigger]
            finder_ready(None, 0, frame, tail0.len() as int, seed, f0) && optimal_result(
                full,
                frame,
                tail0.len() as int,
                params,
                window as int,
                far,
                nothing_known().memory,
                symbols@,
                state.memory@,
                f0,
                state.finder->Some_0,
            );
        assert(slice_chosen(
            k,
            ctx.near(),
            ctx.far(),
            ctx.far_max(),
            data@,
            s0 as int,
            e0 as int,
            params,
            window as int,
            symbols@,
        ));
    }
    proof {
        lemma_stream_empty(extra_dist);
        lemma_coded_empty(extra_dist);
        assert(out@ =~= Seq::<u8>::empty());
        let g = nothing_known().memory;
        let r = sym_run(full, window as int, at, g, symbols@)->Some_0;
        lemma_sym_run_forward(full, window as int, at, g, symbols@);
        let after = stream_known(full);
        assert(full.subrange(0, full.len() as int) =~= full);
        lemma_run_carries(full, at, g, symbols@, r.1, after, window as int);
        lemma_carries_wider(
            stream_known(before),
            symbols@,
            chunk@,
            after,
            window as int,
            dictionary_size(dict_size_log) as int,
        );
        assert(Seq::<Symbol>::empty() + symbols@ =~= symbols@);
    }
    let done = encode_blocks(
        &symbols,
        &mut out,
        usize::MAX,
        is_last_block_of_member,
        extra_dist,
        Ghost(Seq::empty()),
        Ghost(0),
        Ghost(full),
        Ghost(0),
        Ghost(0),
        Ghost(nothing_known().memory),
    );
    let total: usize = out.len();
    proof {
        assert(total == out@.len());
        assert(stream_written(out@, symbols@, is_last_block_of_member, extra_dist));
    }
    out
}

/// The ground of a slice's long-range search. A history that reports longer
/// distances than the window is of no use.
spec fn slice_history(
    c: Carried,
    chunk: Seq<u8>,
    probe: Option<SharedHistory<'_>>,
    long_range: bool,
    window: int,
) -> Option<FarGround> {
    match probe {
        Some(s) => if long_range && s.table.max_distance() <= window {
            search_history(c, chunk, probe, true, window)
        } else {
            None
        },
        None => None,
    }
}

fn slice_symbols(
    state: &mut EncoderState,
    chunk: &[u8],
    params: LevelParams,
    window: usize,
    probe: Option<SharedHistory<'_>>,
    extra_dist: bool,
    seed: bool,
    Ghost(full): Ghost<Seq<u8>>,
) -> (symbols: Vec<Symbol>)
    requires
        old(state).wf(),
        old(state).long_range is None,
        params.max_match <= MAX_MATCH,
        chunk@.len() > 0,
        is_suffix(old(state).tail@ + chunk@, full),
        is_suffix(old(state).hist(), full.subrange(0, full.len() - chunk@.len())),
        match probe {
            Some(s) => {
                &&& s.table.wf()
                &&& s.anchor <= s.table.history().len()
                &&& history_agrees(
                    s.table.history(),
                    full,
                    full.len() - chunk@.len(),
                    s.anchor as int,
                )
            },
            None => true,
        },
    ensures
        ({
            let r = sym_run(
                full,
                window as int,
                full.len() - chunk@.len(),
                old(state).memory@,
                symbols@,
            );
            r is Some && r->Some_0.0 == full.len()
        }),
        symbols@.len() > 0,
        symbols_ok(symbols@),
        exists|f0: MatchFinder| #[trigger]
            finder_ready(
            old(state).finder,
            old(state).frame_len as int,
            old(state).tail@ + chunk@,
            old(state).tail@.len() as int,
            seed,
            f0,
        ) && optimal_result(
            full,
            old(state).tail@ + chunk@,
            old(state).tail@.len() as int,
            params,
            window as int,
            slice_history(
                old(state).carried(),
                chunk@,
                probe,
                params.long_range,
                window as int,
            ),
            old(state).memory@,
            symbols@,
            final(state).memory@,
            f0,
            final(state).finder->Some_0,
        ),
{
    // A history that reports longer distances than the window is of no use.
    let fitting: Option<SharedHistory<'_>> = match probe {
        Some(s) => if s.table.window() <= window {
            Some(s)
        } else {
            None
        },
        None => None,
    };
    let own = LevelParams { long_range: params.long_range && fitting.is_some(), ..params };
    let symbols = find_matches_optimal(
        state,
        chunk,
        own,
        window,
        fitting,
        extra_dist,
        seed,
        Ghost(full),
    );
    proof {
        let at = full.len() - chunk@.len();
        lemma_sym_run_forward(full, window as int, at, old(state).memory@, symbols@);
        let frame = old(state).tail@ + chunk@;
        let start = old(state).tail@.len() as int;
        let g = old(state).memory@;
        let far = slice_history(
            old(state).carried(),
            chunk@,
            probe,
            params.long_range,
            window as int,
        );
        assert(far == search_history(
            old(state).carried(),
            chunk@,
            fitting,
            own.long_range,
            window as int,
        ));
        reveal(optimal_result);
        let f0 = choose|f0: MatchFinder| #[trigger]
            finder_ready(
                old(state).finder,
                old(state).frame_len as int,
                frame,
                start,
                seed,
                f0,
            ) && optimal_result(
                full,
                frame,
                start,
                own,
                window as int,
                far,
                g,
                symbols@,
                state.memory@,
                f0,
                state.finder->Some_0,
            );
        let blocks = choose|blocks: Seq<ParsedBlock>| #[trigger]
            blocks_parsed(full, frame, start, own, window as int, far, g, blocks) && blocks_end(
                blocks,
                start,
            ) == frame.len() && blocks_out(blocks) == symbols@ && blocks_memory(blocks, g)
                == state.memory@ && blocks_search(blocks, f0, state.finder->Some_0);
        lemma_same_blocks(full, frame, start, own, params, window as int, far, g, blocks);
    }
    symbols
}

/// Knowing less is still true.
proof fn lemma_encodes_less(
    s0: Known,
    more: Known,
    data: Seq<u8>,
    packed: Seq<u8>,
    s1: Known,
    less: Known,
    window: int,
    last: bool,
    extra_dist: bool,
)
    requires
        encodes(s0, data, packed, s1, window, last, extra_dist),
        is_suffix(s0.stream, more.stream),
        knows(s0.memory, more.memory),
        is_suffix(less.stream, s1.stream),
        knows(less.memory, s1.memory),
    ensures
        encodes(more, data, packed, less, window, last, extra_dist),
{
    let syms = choose|syms: Seq<Symbol>|
        #[trigger] stream_runs(packed, syms, last, extra_dist) && carries(
            s0,
            syms,
            data,
            s1,
            window,
        );
    assert forall|z: Lz, n: int|
        #![trigger apply_all(z, n, syms)]
        agrees(more, z) && window <= n implies {
        let z2 = apply_all(z, n, syms);
        &&& z2.out == z.out + data
        &&& z2.filters == z.filters
        &&& agrees(less, z2)
        &&& short_of(z, n, syms, (z.out.len() + data.len()) as int)
    } by {
        lemma_agrees_less(more, s0, z);
        lemma_agrees_less(s1, less, apply_all(z, n, syms));
    }
    assert(stream_runs(packed, syms, last, extra_dist) && carries(
        more,
        syms,
        data,
        less,
        window,
    ));
}

/// Encoding of one contiguous window of a member in slices that know nothing
/// of each other's choices.
///
/// Splits `data` into chunk-size slices; each is matched against the
/// preceding plaintext and a shared long-range table built once over the
/// entry history and this window. Repeat-distance state starts fresh in every
/// slice. The output does not depend on `threads`, the number of workers that
/// slices may be handed to.
///
/// Afterwards `seed` continues after this window.
pub fn encode_chunked_mt(
    data: &[u8],
    method: u8,
    dict_size_log: u8,
    chunk_size: usize,
    seed: &mut EncoderState,
    threads: usize,
    is_final: bool,
    extra_dist: bool,
) -> (output: Vec<u8>)
    requires
        old(seed).wf(),
        dict_size_log <= 46,
    ensures
        final(seed).wf(),
        data@.len() == 0 ==> output@.len() == 0,
        encodes(
            old(seed).known(),
            data@,
            output@,
            final(seed).known(),
            dictionary_size(dict_size_log) as int,
            is_final && data@.len() > 0,
            extra_dist,
        ),
        final(seed).carried() == (Carried {
            near: last_bytes(
                old(seed).carried().near + data@,
                near_window(window_of(dict_size_log)),
            ),
            far: history_after(old(seed).carried().far, data@),
            ..nothing_carried()
        }),
        data@.len() > 0 ==> slices_written(
            old(seed).known().stream,
            old(seed).carried().near,
            history_after(old(seed).carried().far, data@),
            data@,
            output@,
            method,
            dict_size_log,
            at_least_one(chunk_size),
            is_final,
            extra_dist,
        ),
{
    let n: usize = data.len();
    let cs: usize = if chunk_size == 0 { 1 } else { chunk_size };
    let ctx = SliceContext::new(seed, data, dict_size_log);
    let ghost k = ctx.past();
    let ghost window = dictionary_size(dict_size_log) as int;
    let ghost first = stream_known(k);
    let mut output: Vec<u8> = Vec::new();
    let mut s0: usize = 0;
    let ghost params = spec_level_params(method);
    let ghost near = window_of(dict_size_log);
    let ghost mut parts: Seq<Seq<Symbol>> = Seq::empty();
    let ghost tail = ctx.near();
    let ghost hist = ctx.far();
    proof {
        lemma_stream_empty(extra_dist);
        lemma_coded_empty(extra_dist);
        lemma_carries_nothing(first, window);
        assert(output@ =~= Seq::<u8>::empty());
        assert(data@.subrange(0, 0) =~= Seq::<u8>::empty());
        assert(k + data@.subrange(0, 0) =~= k);
        assert(stream_runs(output@, Seq::<Symbol>::empty(), false, extra_dist) && carries(
            first,
            Seq::<Symbol>::empty(),
            data@.subrange(0, 0),
            first,
            window,
        ));
    }
    while s0 < n
        invariant
            n == data@.len(),
            s0 <= n,
            cs > 0,
            dict_size_log <= 46,
            ctx.wf(data@),
            k == ctx.past(),
            tail == ctx.near(),
            window == dictionary_size(dict_size_log),
            first == stream_known(k),
            n == 0 ==> output@.len() == 0,
            params == spec_level_params(method),
            near == window_of(dict_size_log),
            hist == ctx.far(),
            near == ctx.far_max(),
            slices_chosen(k, tail, hist, data@, cs as int, params, near, parts),
            s0 == chunk_end(n as int, cs as int, parts.len()),
            stream_written(
                output@,
                slice_symbols_of(parts),
                is_final && s0 == n && n > 0,
                extra_dist,
            ),
            encodes(
                first,
                data@.subrange(0, s0 as int),
                output@,
                stream_known(k + data@.subrange(0, s0 as int)),
                window,
                is_final && s0 == n && n > 0,
                extra_dist,
            ),
        decreases n - s0,
    {
        let e0: usize = if n - s0 < cs { n } else { s0 + cs };
        let blocks = encode_mt_slice(
            data,
            s0,
            e0,
            &ctx,
            method,
            dict_size_log,
            is_final && e0 == n,
            extra_dist,
        );
        let ghost before = output@;
        output.extend_from_slice(blocks.as_slice());
        proof {
            assert(output@ =~= before + blocks@);
            let ended = is_final && e0 == n;
            let symbols = choose|symbols: Seq<Symbol>|
                #[trigger] stream_written(blocks@, symbols, ended, extra_dist)
                    && slice_chosen(
                    k,
                    tail,
                    hist,
                    near,
                    data@,
                    s0 as int,
                    e0 as int,
                    params,
                    near,
                    symbols,
                );
            let more = parts.push(symbols);
            lemma_stream_concat(
                before,
                slice_symbols_of(parts),
                blocks@,
                symbols,
                is_final && e0 == n,
                extra_dist,
            );
            lemma_coded_concat(
                before,
                slice_symbols_of(parts),
                blocks@,
                symbols,
                ended,
                extra_dist,
            );
            assert(more.drop_last() =~= parts);
            assert forall|i: int| 0 <= i < more.len() implies slice_chosen(
                k,
                tail,
                hist,
                near,
                data@,
                chunk_end(n as int, cs as int, i as nat),
                chunk_end(n as int, cs as int, i as nat + 1),
                params,
                near,
                #[trigger] more[i],
            ) by {
                if i < parts.len() {
                    assert(more[i] == parts[i]);
                }
            }
            parts = more;
            lemma_encodes_concat(
                first,
                data@.subrange(0, s0 as int),
                before,
                stream_known(k + data@.subrange(0, s0 as int)),
                data@.subrange(s0 as int, e0 as int),
                blocks@,
                stream_known(k + data@.subrange(0, e0 as int)),
                window,
                is_final && e0 == n,
                extra_dist,
            );
            assert(data@.subrange(0, s0 as int) + data@.subrange(s0 as int, e0 as int)
                =~= data@.subrange(0, e0 as int));
        }
        s0 = e0;
    }
    ctx.finish(seed, data, dict_size_log);
    proof {
        assert(data@.subrange(0, n as int) =~= data@);
        assert(k.subrange(0, k.len() as int) =~= k);
        {
            lemma_encodes_less(
                first,
                old(seed).known(),
                data@,
                output@,
                stream_known(k + data@),
                seed.known(),
                window,
                is_final && n > 0,
                extra_dist,
            );
        }
    }
    output
}

} // verus!
