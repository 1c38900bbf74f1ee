//! What a compression level stands for: which search finds the symbols of
//! each chunk, and with which settings.

use crate::codec::encode::{
    carries, chunk_end, last_bytes, near_window, nothing_known, slice_tail, spec_level_params,
    stream_written, tail_is_incompressible, window_of, Known, LevelParams,
};
use crate::codec::greedy::greedy_result;
use crate::codec::match_finder::{history_after, MatchFinder, LONG_RANGE_MAX};
use crate::codec::matching::{knows, sym_run, Memory};
use crate::codec::parse::{parse_result, search_ground, FarGround};
use crate::codec::symbols::Symbol;
use vstd::prelude::*;

verus! {

/// What an encoder carries from one chunk to the next.
pub ghost struct Carried {
    /// The bytes that the near search looks back at.
    pub near: Seq<u8>,
    /// The long-range history.
    pub far: Seq<u8>,
    /// Remembered distances and the last length.
    pub memory: Memory,
    pub finder: Option<MatchFinder>,
    /// Length of the frame that the finder worked on; zero where the next one
    /// starts afresh.
    pub frame_len: int,
}

impl Carried {
    /// What the encoder knows of its stream.
    pub open spec fn known(self) -> Known {
        Known {
            stream: if self.far.len() > self.near.len() {
                self.far
            } else {
                self.near
            },
            memory: self.memory,
        }
    }
}

/// What an encoder carries before it has encoded anything.
pub open spec fn nothing_carried() -> Carried {
    Carried {
        near: Seq::empty(),
        far: Seq::empty(),
        memory: nothing_known().memory,
        finder: None,
        frame_len: 0,
    }
}

/// `f` is a finder for `frame`, whose first `tail_len` bytes were seen before:
/// `prev`, moved on from the frame of `frame_len` bytes that it worked on, or
/// one that was told of them, if `seed` says so.
pub open spec fn finder_ready(
    prev: Option<MatchFinder>,
    frame_len: int,
    frame: Seq<u8>,
    tail_len: int,
    seed: bool,
    f: MatchFinder,
) -> bool {
    if prev is Some && frame_len > 0 && prev->Some_0.chain_reach() >= frame.len() {
        frame_len - tail_len <= u32::MAX ==> f.has_slid(prev->Some_0, frame_len - tail_len)
    } else {
        frame.len() <= u32::MAX ==> exists|e: MatchFinder| #[trigger]
            e.is_empty() && f.seen_since(
                e,
                frame,
                0,
                if seed {
                    tail_len
                } else {
                    0
                },
            )
    }
}

/// What is carried behind a chunk: the end of the frame, as far as the near
/// search looks back; the history continued with the chunk, where it is kept.
pub open spec fn carried_after(
    c: Carried,
    chunk: Seq<u8>,
    keeps_history: bool,
    window: int,
    memory: Memory,
    finder: MatchFinder,
) -> Carried {
    let frame = c.near + chunk;
    Carried {
        near: last_bytes(frame, near_window(window)),
        far: if keeps_history {
            history_after(c.far, chunk)
        } else {
            Seq::empty()
        },
        memory,
        finder: Some(finder),
        frame_len: frame.len() as int,
    }
}

/// One block of an optimal parse: its place in the frame, the finder and the
/// memory before and after it, and its symbols.
pub ghost struct ParsedBlock {
    pub start: int,
    pub end: int,
    pub before: MatchFinder,
    pub after: MatchFinder,
    pub g: Memory,
    pub h: Memory,
    pub symbols: Seq<Symbol>,
}

/// Where blocks from `start` on end.
pub open spec fn blocks_end(blocks: Seq<ParsedBlock>, start: int) -> int {
    if blocks.len() == 0 {
        start
    } else {
        blocks.last().end
    }
}

/// The memory behind blocks.
pub open spec fn blocks_memory(blocks: Seq<ParsedBlock>, g: Memory) -> Memory {
    if blocks.len() == 0 {
        g
    } else {
        blocks.last().h
    }
}

/// The symbols of blocks.
pub open spec fn blocks_out(blocks: Seq<ParsedBlock>) -> Seq<Symbol>
    decreases blocks.len(),
{
    if blocks.len() == 0 {
        Seq::empty()
    } else {
        blocks_out(blocks.drop_last()) + blocks.last().symbols
    }
}

/// Blocks follow each other from `start` on, each parsed at the lowest price
/// with the settings of a level.
pub open spec fn blocks_parsed(
    full: Seq<u8>,
    frame: Seq<u8>,
    start: int,
    params: LevelParams,
    window: int,
    far: Option<FarGround>,
    g: Memory,
    blocks: Seq<ParsedBlock>,
) -> bool
    decreases blocks.len(),
{
    if blocks.len() == 0 {
        true
    } else {
        let front = blocks.drop_last();
        let b = blocks.last();
        &&& blocks_parsed(full, frame, start, params, window, far, g, front)
        &&& b.start == blocks_end(front, start)
        &&& b.start < b.end <= frame.len()
        &&& b.g == blocks_memory(front, g)
        &&& front.len() > 0 ==> b.before == front.last().after
        &&& parse_result(
            full,
            search_ground(frame, b.start, b.end, params.max_match as int, window, far),
            params.chain_len as int,
            params.passes as int,
            b.before,
            b.after,
            b.g,
            b.symbols,
            b.h,
        )
    }
}

/// The finder before blocks is `f0`, the one behind them `f1`.
pub open spec fn blocks_search(
    blocks: Seq<ParsedBlock>,
    f0: MatchFinder,
    f1: MatchFinder,
) -> bool {
    if blocks.len() == 0 {
        f1 == f0
    } else {
        blocks[0].before == f0 && blocks.last().after == f1
    }
}

/// The symbols and the memory are those of an optimal parse of the frame from
/// `start` to its end, block by block. It finds the finder as `f0` and leaves
/// it as `f1`.
#[verifier::opaque]
pub open spec fn optimal_result(
    full: Seq<u8>,
    frame: Seq<u8>,
    start: int,
    params: LevelParams,
    window: int,
    far: Option<FarGround>,
    g: Memory,
    symbols: Seq<Symbol>,
    h: Memory,
    f0: MatchFinder,
    f1: MatchFinder,
) -> bool {
    exists|blocks: Seq<ParsedBlock>| #[trigger]
        blocks_parsed(full, frame, start, params, window, far, g, blocks) && blocks_end(blocks, start)
            == frame.len() && blocks_out(blocks) == symbols && blocks_memory(blocks, g) == h
            && blocks_search(blocks, f0, f1)
}

/// One more block.
pub proof fn lemma_block_push(
    full: Seq<u8>,
    frame: Seq<u8>,
    start: int,
    params: LevelParams,
    window: int,
    far: Option<FarGround>,
    g: Memory,
    blocks: Seq<ParsedBlock>,
    b: ParsedBlock,
)
    requires
        blocks_parsed(full, frame, start, params, window, far, g, blocks),
        b.start == blocks_end(blocks, start),
        b.start < b.end <= frame.len(),
        b.g == blocks_memory(blocks, g),
        blocks.len() > 0 ==> b.before == blocks.last().after,
        parse_result(
            full,
            search_ground(frame, b.start, b.end, params.max_match as int, window, far),
            params.chain_len as int,
            params.passes as int,
            b.before,
            b.after,
            b.g,
            b.symbols,
            b.h,
        ),
    ensures
        blocks_parsed(full, frame, start, params, window, far, g, blocks.push(b)),
        blocks_end(blocks.push(b), start) == b.end,
        blocks_memory(blocks.push(b), g) == b.h,
        blocks_out(blocks.push(b)) == blocks_out(blocks) + b.symbols,
{
    assert(blocks.push(b).drop_last() =~= blocks);
}

/// Distances that the near search of a frame covers.
pub open spec fn near_distances(frame_len: int) -> int {
    if frame_len < usize::MAX {
        frame_len
    } else {
        usize::MAX - 1
    }
}

/// The ground of a search in a history, in which the chunk starts at `anchor`.
pub open spec fn history_ground(
    hist: Seq<u8>,
    anchor: int,
    chunk_start: int,
    frame_len: int,
    max_distance: int,
) -> FarGround {
    FarGround { hist, anchor, chunk_start, near_max: near_distances(frame_len), max_distance }
}

/// The ground of a long-range search of `chunk` in the history carried, at the
/// levels that make one.
pub open spec fn own_ground(
    c: Carried,
    chunk: Seq<u8>,
    long_range: bool,
    window: int,
) -> Option<FarGround> {
    if long_range {
        Some(
            history_ground(
                c.far,
                c.far.len() as int,
                c.near.len() as int,
                (c.near + chunk).len() as int,
                window,
            ),
        )
    } else {
        None
    }
}

/// The ground of a long-range search of the slice that starts at `s0`, in a
/// history that ends with all of the data, if it reaches back to the slice.
pub open spec fn slice_ground(
    hist: Seq<u8>,
    data_len: int,
    s0: int,
    tail_len: int,
    frame_len: int,
    long_range: bool,
    max_distance: int,
    window: int,
) -> Option<FarGround> {
    if long_range && hist.len() >= data_len - s0 && max_distance <= window {
        Some(
            history_ground(
                hist,
                hist.len() - (data_len - s0),
                tail_len,
                frame_len,
                max_distance,
            ),
        )
    } else {
        None
    }
}

/// The symbols of `chunk`, behind what `c0` carries, are those that the level's
/// search of the near bytes, the chunk and the history finds: the optimal
/// parse, or the greedy search where the level makes no passes. The search starts with the
/// finder `f0` and leaves it as `f1`; `c1` is carried on.
pub open spec fn chunk_found(
    c0: Carried,
    chunk: Seq<u8>,
    params: LevelParams,
    window: int,
    symbols: Seq<Symbol>,
    c1: Carried,
    f0: MatchFinder,
    f1: MatchFinder,
) -> bool {
    let frame = c0.near + chunk;
    let full = c0.known().stream + chunk;
    let at = c0.near.len() as int;
    let far = own_ground(c0, chunk, params.long_range, window);
    let run = sym_run(full, window, full.len() - chunk.len(), c0.memory, symbols);
    &&& finder_ready(c0.finder, c0.frame_len, frame, at, true, f0)
    &&& run is Some
    &&& if params.passes > 0 {
        &&& optimal_result(
            full,
            frame,
            at,
            params,
            window,
            far,
            c0.memory,
            symbols,
            c1.memory,
            f0,
            f1,
        )
        &&& run->Some_0.1 == c1.memory
    } else {
        &&& frame.len() <= u32::MAX ==> greedy_result(
            frame,
            at,
            f0,
            far,
            params,
            window,
            c0.memory,
            symbols,
            c1.memory,
        ) && f1.seen_since(f0, frame, at, frame.len() as int)
        &&& knows(c1.memory, run->Some_0.1)
    }
    &&& c1 == carried_after(c0, chunk, params.long_range, window, c1.memory, f1)
}

/// The symbols of `chunk`, behind what `c0` carries, are those that the level's
/// search finds, and `c1` is carried on.
#[verifier::opaque]
pub open spec fn chunk_step(
    c0: Carried,
    chunk: Seq<u8>,
    params: LevelParams,
    window: int,
    symbols: Seq<Symbol>,
    c1: Carried,
) -> bool {
    exists|f0: MatchFinder, f1: MatchFinder| #[trigger]
        chunk_found(c0, chunk, params, window, symbols, c1, f0, f1)
}

/// What is carried behind a chunk, whatever is found in it.
pub proof fn lemma_step_carries(
    c0: Carried,
    chunk: Seq<u8>,
    params: LevelParams,
    window: int,
    symbols: Seq<Symbol>,
    c1: Carried,
)
    requires
        chunk_step(c0, chunk, params, window, symbols, c1),
    ensures
        c1.near == last_bytes(c0.near + chunk, near_window(window)),
        c1.far == if params.long_range {
            history_after(c0.far, chunk)
        } else {
            Seq::empty()
        },
{
    reveal(chunk_step);
}

/// What is carried before a chunk and behind it, and the symbols found for it.
pub ghost struct ChunkChoice {
    pub before: Carried,
    pub symbols: Seq<Symbol>,
    pub after: Carried,
}

/// What is carried behind chunks.
pub open spec fn parts_end(c0: Carried, parts: Seq<ChunkChoice>) -> Carried {
    if parts.len() == 0 {
        c0
    } else {
        parts.last().after
    }
}

/// Chunk `i` of the data.
pub open spec fn chunk_at(data: Seq<u8>, chunk_size: int, i: nat) -> Seq<u8> {
    data.subrange(
        chunk_end(data.len() as int, chunk_size, i),
        chunk_end(data.len() as int, chunk_size, i + 1),
    )
}

/// Every chunk's symbols are those that the level's search finds, and decode
/// to it.
#[verifier::opaque]
pub open spec fn chosen(
    data: Seq<u8>,
    chunk_size: int,
    params: LevelParams,
    window: int,
    parts: Seq<ChunkChoice>,
) -> bool {
    forall|i: int|
        0 <= i < parts.len() ==> {
            let c = #[trigger] parts[i];
            let chunk = chunk_at(data, chunk_size, i as nat);
            &&& chunk_step(c.before, chunk, params, window, c.symbols, c.after)
            &&& carries(c.before.known(), c.symbols, chunk, c.after.known(), window)
        }
}

/// What a chunk leaves carried is what the next one finds.
#[verifier::opaque]
pub open spec fn chained(c0: Carried, parts: Seq<ChunkChoice>) -> bool {
    &&& parts.len() > 0 ==> parts[0].before == c0
    &&& forall|i: int| 1 <= i < parts.len() ==> (#[trigger] parts[i]).before == parts[i - 1].after
}

/// The symbols of all chunks.
pub open spec fn all_symbols(parts: Seq<ChunkChoice>) -> Seq<Symbol>
    decreases parts.len(),
{
    if parts.len() == 0 {
        Seq::empty()
    } else {
        all_symbols(parts.drop_last()) + parts.last().symbols
    }
}

/// `packed` is what the level of `method` writes for `data`, behind the
/// symbols `lead`: the symbols that its search finds, chunk by chunk, all of
/// them, or the first of them where the stream has outgrown the data.
pub open spec fn written_at_level(
    c0: Carried,
    lead: Seq<Symbol>,
    data: Seq<u8>,
    packed: Seq<u8>,
    method: u8,
    dict_size_log: u8,
    chunk_size: int,
    last: bool,
    extra_dist: bool,
    c1: Carried,
) -> bool {
    chunks_written(
        c0,
        lead,
        data,
        packed,
        spec_level_params(method),
        window_of(dict_size_log),
        chunk_size,
        last,
        extra_dist,
        c1,
    )
}

/// `packed` holds the symbols that a search finds for `data`, chunk by chunk,
/// behind the symbols `lead`. The first chunk finds `c0` carried, the last one
/// that was searched leaves `c1`.
#[verifier::opaque]
pub open spec fn chunks_written(
    c0: Carried,
    lead: Seq<Symbol>,
    data: Seq<u8>,
    packed: Seq<u8>,
    params: LevelParams,
    window: int,
    chunk_size: int,
    last: bool,
    extra_dist: bool,
    c1: Carried,
) -> bool {
    exists|parts: Seq<ChunkChoice>, j: int|
        #![trigger chosen(data, chunk_size, params, window, parts), (lead + all_symbols(
            parts,
        )).subrange(0, j)]
        {
            let symbols = lead + all_symbols(parts);
            let n = data.len() as int;
            &&& chosen(data, chunk_size, params, window, parts)
            &&& chained(c0, parts)
            &&& c1 == parts_end(c0, parts)
            &&& 0 <= j <= symbols.len()
            &&& if j == symbols.len() && chunk_end(n, chunk_size, parts.len()) == n {
                stream_written(packed, symbols.subrange(0, j), last, extra_dist)
            } else {
                &&& packed.len() > n
                &&& stream_written(packed, symbols.subrange(0, j), false, extra_dist)
            }
        }
}

/// No chunk yet.
pub proof fn lemma_no_choice(
    data: Seq<u8>,
    chunk_size: int,
    params: LevelParams,
    window: int,
    c0: Carried,
)
    ensures
        chosen(data, chunk_size, params, window, Seq::empty()),
        chained(c0, Seq::empty()),
{
    reveal(chosen);
    reveal(chained);
}

/// The symbols of the slice from `s0` to `e0`, with nothing known of the
/// decoder's memory, are those of the optimal parse at a level's settings,
/// looking back at the bytes before the slice. `near` stands before the data,
/// and the history `hist` ends with it and reports distances up to `far_max`.
#[verifier::opaque]
pub open spec fn slice_chosen(
    past: Seq<u8>,
    near: Seq<u8>,
    hist: Seq<u8>,
    far_max: int,
    data: Seq<u8>,
    s0: int,
    e0: int,
    params: LevelParams,
    window: int,
    symbols: Seq<Symbol>,
) -> bool {
    let full = past + data.subrange(0, e0);
    let tail = slice_tail(near, data, s0, window);
    let frame = tail + data.subrange(s0, e0);
    let seed = !tail_is_incompressible(tail);
    let far = slice_ground(
        hist,
        data.len() as int,
        s0,
        tail.len() as int,
        frame.len() as int,
        params.long_range,
        far_max,
        window,
    );
    exists|h: Memory, f0: MatchFinder, f1: MatchFinder| #[trigger]
        optimal_result(
            full,
            frame,
            tail.len() as int,
            params,
            window,
            far,
            nothing_known().memory,
            symbols,
            h,
            f0,
            f1,
        ) && finder_ready(None, 0, frame, tail.len() as int, seed, f0)
}

/// Every slice's symbols are those of the optimal parse.
pub open spec fn slices_chosen(
    past: Seq<u8>,
    near: Seq<u8>,
    hist: Seq<u8>,
    data: Seq<u8>,
    chunk_size: int,
    params: LevelParams,
    window: int,
    parts: Seq<Seq<Symbol>>,
) -> bool {
    forall|i: int|
        0 <= i < parts.len() ==> slice_chosen(
            past,
            near,
            hist,
            window,
            data,
            chunk_end(data.len() as int, chunk_size, i as nat),
            chunk_end(data.len() as int, chunk_size, i as nat + 1),
            params,
            window,
            #[trigger] parts[i],
        )
}

/// The symbols of all slices.
pub open spec fn slice_symbols_of(parts: Seq<Seq<Symbol>>) -> Seq<Symbol>
    decreases parts.len(),
{
    if parts.len() == 0 {
        Seq::empty()
    } else {
        slice_symbols_of(parts.drop_last()) + parts.last()
    }
}

/// `packed` is what slices of `data` are written as at the level of `method`:
/// the symbols of every slice's optimal parse. `near` stands before the data,
/// and the history `hist` ends with it.
pub open spec fn slices_written(
    past: Seq<u8>,
    near: Seq<u8>,
    hist: Seq<u8>,
    data: Seq<u8>,
    packed: Seq<u8>,
    method: u8,
    dict_size_log: u8,
    chunk_size: int,
    last: bool,
    extra_dist: bool,
) -> bool {
    exists|parts: Seq<Seq<Symbol>>|
        #[trigger] slices_chosen(
            past,
            near,
            hist,
            data,
            chunk_size,
            spec_level_params(method),
            window_of(dict_size_log),
            parts,
        ) && chunk_end(data.len() as int, chunk_size, parts.len()) == data.len() && stream_written(
            packed,
            slice_symbols_of(parts),
            last,
            extra_dist,
        )
}

/// Only the chain length, the longest match and the passes matter to blocks.
pub proof fn lemma_same_blocks(
    full: Seq<u8>,
    frame: Seq<u8>,
    start: int,
    a: LevelParams,
    b: LevelParams,
    window: int,
    far: Option<FarGround>,
    g: Memory,
    blocks: Seq<ParsedBlock>,
)
    requires
        blocks_parsed(full, frame, start, a, window, far, g, blocks),
        a.chain_len == b.chain_len,
        a.max_match == b.max_match,
        a.passes == b.passes,
    ensures
        blocks_parsed(full, frame, start, b, window, far, g, blocks),
    decreases blocks.len(),
{
    if blocks.len() > 0 {
        lemma_same_blocks(full, frame, start, a, b, window, far, g, blocks.drop_last());
    }
}

/// One more chunk.
pub proof fn lemma_choice_push(
    data: Seq<u8>,
    chunk_size: int,
    params: LevelParams,
    window: int,
    c0: Carried,
    parts: Seq<ChunkChoice>,
    c: ChunkChoice,
)
    requires
        chosen(data, chunk_size, params, window, parts),
        chained(c0, parts),
        ({
            let chunk = chunk_at(data, chunk_size, parts.len());
            &&& chunk_step(c.before, chunk, params, window, c.symbols, c.after)
            &&& carries(c.before.known(), c.symbols, chunk, c.after.known(), window)
        }),
        c.before == parts_end(c0, parts),
    ensures
        chosen(data, chunk_size, params, window, parts.push(c)),
        chained(c0, parts.push(c)),
        parts_end(c0, parts.push(c)) == c.after,
        all_symbols(parts.push(c)) == all_symbols(parts) + c.symbols,
{
    reveal(chosen);
    reveal(chained);
    let more = parts.push(c);
    assert(more.drop_last() =~= parts);
    assert forall|i: int| 0 <= i < more.len() implies {
        let d = #[trigger] more[i];
        let chunk = chunk_at(data, chunk_size, i as nat);
        &&& chunk_step(d.before, chunk, params, window, d.symbols, d.after)
        &&& carries(d.before.known(), d.symbols, chunk, d.after.known(), window)
    } by {
        if i < parts.len() {
            assert(more[i] == parts[i]);
        }
    }
    assert forall|i: int| 1 <= i < more.len() implies (#[trigger] more[i]).before == more[i
        - 1].after by {
        assert(more[i - 1] == parts[i - 1]);
        if i < parts.len() {
            assert(more[i] == parts[i]);
        }
    }
    if parts.len() > 0 {
        assert(more[0] == parts[0]);
    }
}

/// The end of what ends `a`, behind more bytes, is the end of it all.
pub proof fn lemma_last_of_last(a: Seq<u8>, b: Seq<u8>, w: int)
    requires
        0 <= w,
    ensures
        last_bytes(last_bytes(a, w) + b, w) == last_bytes(a + b, w),
{
    assert(last_bytes(last_bytes(a, w) + b, w) =~= last_bytes(a + b, w));
}

/// A history continued twice is the end of what it continues, and all of it
/// or as long as half of what is kept at most.
pub open spec fn keeps_history(far0: Seq<u8>, data: Seq<u8>, far1: Seq<u8>) -> bool {
    let all = far0 + data;
    &&& far1.len() <= all.len()
    &&& all.subrange(all.len() - far1.len(), all.len() as int) == far1
    &&& far1 == all || far1.len() >= LONG_RANGE_MAX / 2
}

proof fn lemma_history_continues(far0: Seq<u8>, a: Seq<u8>, far1: Seq<u8>, b: Seq<u8>)
    requires
        keeps_history(far0, a, far1),
    ensures
        keeps_history(far0, a + b, history_after(far1, b)),
{
    let far2 = history_after(far1, b);
    let all = far0 + (a + b);
    assert(all =~= (far0 + a) + b);
    assert(all.subrange(all.len() - far2.len(), all.len() as int) =~= far2);
    if far1 == far0 + a {
        assert(far1 + b =~= all);
    }
}

/// What chunks leave carried: the end of all data, as far as the near search
/// looks back, and the history continued with the data, where it is kept.
pub proof fn lemma_parts_carry(
    data: Seq<u8>,
    chunk_size: int,
    params: LevelParams,
    window: int,
    c0: Carried,
    parts: Seq<ChunkChoice>,
)
    requires
        chosen(data, chunk_size, params, window, parts),
        chained(c0, parts),
        chunk_size > 0,
        0 <= window,
        parts.len() > 0,
    ensures
        ({
            let e = chunk_end(data.len() as int, chunk_size, parts.len());
            let c1 = parts_end(c0, parts);
            &&& 0 <= e <= data.len()
            &&& c1.near == last_bytes(c0.near + data.subrange(0, e), near_window(window))
            &&& if params.long_range {
                keeps_history(c0.far, data.subrange(0, e), c1.far)
            } else {
                c1.far.len() == 0
            }
        }),
    decreases parts.len(),
{
    reveal(chosen);
    reveal(chained);
    let n = data.len() as int;
    let k = parts.len() - 1;
    let c = parts[k];
    lemma_chunk_end(n, chunk_size, k as nat);
    let e0 = chunk_end(n, chunk_size, k as nat);
    let e1 = chunk_end(n, chunk_size, parts.len());
    let chunk = chunk_at(data, chunk_size, k as nat);
    lemma_step_carries(c.before, chunk, params, window, c.symbols, c.after);
    assert(chunk =~= data.subrange(e0, e1));
    assert(data.subrange(0, e0) + chunk =~= data.subrange(0, e1));
    let w = near_window(window);
    if k == 0 {
        assert(chunk =~= data.subrange(0, e1));
        if params.long_range {
            assert(data.subrange(0, 0) =~= Seq::<u8>::empty());
            assert(c0.far + Seq::<u8>::empty() =~= c0.far);
            assert(c0.far.subrange(0, c0.far.len() as int) =~= c0.far);
            lemma_history_continues(c0.far, Seq::empty(), c0.far, chunk);
            assert(Seq::<u8>::empty() + chunk =~= chunk);
        }
    } else {
        let front = parts.drop_last();
        assert forall|i: int| 0 <= i < front.len() implies {
            let d = #[trigger] front[i];
            let piece = chunk_at(data, chunk_size, i as nat);
            &&& chunk_step(d.before, piece, params, window, d.symbols, d.after)
            &&& carries(d.before.known(), d.symbols, piece, d.after.known(), window)
        } by {
            assert(front[i] == parts[i]);
        }
        assert forall|i: int| 1 <= i < front.len() implies (#[trigger] front[i]).before == front[i
            - 1].after by {
            assert(front[i] == parts[i] && front[i - 1] == parts[i - 1]);
        }
        assert(front[0] == parts[0]);
        lemma_parts_carry(data, chunk_size, params, window, c0, front);
        assert(c.before == parts[k - 1].after);
        assert(front.last() == parts[k - 1]);
        let done = data.subrange(0, e0);
        lemma_last_of_last(c0.near + done, chunk, w);
        assert((c0.near + done) + chunk =~= c0.near + data.subrange(0, e1));
        if params.long_range {
            lemma_history_continues(c0.far, done, c.before.far, chunk);
        }
    }
}

proof fn lemma_chunk_end(n: int, chunk_size: int, k: nat)
    requires
        0 <= n,
        chunk_size > 0,
    ensures
        0 <= chunk_end(n, chunk_size, k) <= chunk_end(n, chunk_size, k + 1) <= n,
    decreases k,
{
    if k > 0 {
        lemma_chunk_end(n, chunk_size, (k - 1) as nat);
    }
}

} // verus!
