//! Choosing the symbols for a stretch of data.

use crate::codec::block::{codes_for, counts_of, Frequencies};
use crate::codec::lz::{cache_pushed, cache_touched};
use crate::codec::match_finder::{
    agrees_for, hash8, history_match, is_suffix, match_length_at, sample_of, LongRange, MatchFinder,
};
use crate::codec::matching::{
    lemma_sym_run_push, lemma_valid_match_extend, sym_run, valid_match, Memory,
};
use crate::codec::slots::{
    distance_extra, distance_slot, distance_slot_bits, encode_distance_slot, encode_length_slot,
    in_length_slot, lemma_distance_slot_exists, lemma_length_slot_exists, lemma_length_slot_unique,
    length_slot_bits, length_bonus, length_extra_bits, length_slot, slot_last_length,
    spec_length_bonus, MAX_MATCH,
};
use crate::codec::symbols::{Symbol, SYM_CACHE_BASE, SYM_MATCH_BASE, SYM_REPEAT};
use crate::codec::tables::{CodeLengths, HUFF_DC, HUFF_LDC, HUFF_NC, HUFF_RC};
use vstd::arithmetic::power2::*;
use vstd::prelude::*;

verus! {

/// Length from which a match is taken without pricing what it covers.
pub const NICE_MATCH_LENGTH: usize = 64;

/// Positions without a match after which the search thins out.
pub const FAST_MODE_AFTER: usize = 65536;

/// How often the thinned-out search looks properly (a power of two).
pub const FAST_RECOVER_INTERVAL: usize = 128;

/// Cost of a literal before any block has been priced.
pub const ESTIMATED_LITERAL_COST: u32 = 9;

/// Most length slots priced per position, beside the longest run.
pub const MAX_PARSE_STEPS_PER_POSITION: usize = 12;

/// Cost of a symbol that the tables at hand do not have.
pub const UNUSED_SYMBOL_COST: usize = 15;

// ── The distance memory ────────────────────────────────────────────────────

/// The encoder's distance memory, mirroring the decoder's four-slot cache
/// and last-length state.
#[derive(Debug, Clone, Copy)]
pub struct EncoderMatchState {
    pub reps: [u32; 4],
    pub last_length: u32,
}

/// Four distances, as the decoder keeps them.
pub open spec fn wide(reps: Seq<u32>) -> Seq<u64> {
    Seq::new(reps.len(), |i: int| reps[i] as u64)
}

impl View for EncoderMatchState {
    type V = Memory;

    open spec fn view(&self) -> Memory {
        Memory { reps: wide(self.reps@), last: self.last_length as int }
    }
}

/// How a match is going to be written.
#[derive(Debug, Clone, Copy, PartialEq, Eq, Structural)]
pub enum EncodedMatch {
    Repeat,
    CacheRef { index: usize, len_slot: usize },
    New { len_slot: usize, dist_slot: usize, dist_extra: u32, dbits: usize },
}

/// The first remembered distance equal to `dist`.
pub open spec fn first_rep(reps: Seq<u64>, dist: int) -> Option<int> {
    if reps[0] == dist {
        Some(0)
    } else if reps[1] == dist {
        Some(1)
    } else if reps[2] == dist {
        Some(2)
    } else if reps[3] == dist {
        Some(3)
    } else {
        None
    }
}

/// The memory after a match.
pub open spec fn remembered(g: Memory, length: int, dist: u64) -> Memory {
    if dist == g.reps[0] && length == g.last {
        g
    } else {
        match first_rep(g.reps, dist as int) {
            Some(i) => Memory { reps: cache_touched(g.reps, i), last: length },
            None => Memory { reps: cache_pushed(g.reps, dist), last: length },
        }
    }
}

/// The first place of `dist` in the cache.
pub fn cache_find(cache: &[u32; 4], dist: u32) -> (r: Option<usize>)
    ensures
        match r {
            Some(i) => i < 4 && first_rep(wide(cache@), dist as int) == Some(i as int)
                && cache@[i as int] == dist,
            None => first_rep(wide(cache@), dist as int) is None,
        },
{
    if cache[0] == dist {
        Some(0)
    } else if cache[1] == dist {
        Some(1)
    } else if cache[2] == dist {
        Some(2)
    } else if cache[3] == dist {
        Some(3)
    } else {
        None
    }
}

/// Remember a new distance.
pub fn cache_push(cache: &mut [u32; 4], dist: u32)
    ensures
        wide(final(cache)@) == cache_pushed(wide(old(cache)@), dist as u64),
{
    cache[3] = cache[2];
    cache[2] = cache[1];
    cache[1] = cache[0];
    cache[0] = dist;
    assert(wide(cache@) =~= cache_pushed(wide(old(cache)@), dist as u64));
}

/// Move a remembered distance to the front.
pub fn cache_touch(cache: &mut [u32; 4], idx: usize)
    requires
        idx < 4,
    ensures
        wide(final(cache)@) == cache_touched(wide(old(cache)@), idx as int),
{
    let val: u32 = cache[idx];
    if idx >= 3 {
        cache[3] = cache[2];
    }
    if idx >= 2 {
        cache[2] = cache[1];
    }
    if idx >= 1 {
        cache[1] = cache[0];
    }
    cache[0] = val;
    assert(wide(cache@) =~= cache_touched(wide(old(cache)@), idx as int));
}

/// The slot of any length: the first below the shortest, the last above the
/// longest.
pub open spec fn any_length_slot(length: int) -> int {
    if length < 2 {
        0
    } else if length > MAX_MATCH {
        43
    } else {
        length_slot(length)
    }
}

/// How a match is written under a memory. Nothing when it cannot be: a fresh
/// distance's length bonus can exceed the raw length.
pub open spec fn match_form(g: Memory, length: int, distance: int) -> Option<EncodedMatch> {
    if g.reps[0] == distance && g.last == length && length != 0 {
        Some(EncodedMatch::Repeat)
    } else {
        match first_rep(g.reps, distance) {
            Some(i) => Some(
                EncodedMatch::CacheRef {
                    index: i as usize,
                    len_slot: any_length_slot(length) as usize,
                },
            ),
            None => if length < 2 + spec_length_bonus(distance) {
                None
            } else {
                Some(
                    EncodedMatch::New {
                        len_slot: any_length_slot(length - spec_length_bonus(distance)) as usize,
                        dist_slot: distance_slot(distance) as usize,
                        dist_extra: distance_extra(distance) as u32,
                        dbits: distance_slot_bits(distance_slot(distance)) as usize,
                    },
                )
            },
        }
    }
}

impl EncoderMatchState {
    /// Classify a match the way the encoder will emit it. `None` when the
    /// match cannot be encoded.
    pub fn encode_match(&self, length: u32, distance: u32) -> (r: Option<EncodedMatch>)
        requires
            distance > 0,
        ensures
            r == match_form(self@, length as int, distance as int),
            match r {
                Some(EncodedMatch::CacheRef { index, len_slot }) => index < 4 && len_slot <= 43,
                Some(EncodedMatch::New { len_slot, dist_slot, dist_extra, dbits }) => len_slot <= 43
                    && dist_slot <= 63 && dbits <= 30,
                _ => true,
            },
    {
        if distance == self.reps[0] && length == self.last_length && self.last_length != 0 {
            return Some(EncodedMatch::Repeat);
        }
        match cache_find(&self.reps, distance) {
            Some(index) => {
                let len_slot: usize = encode_length_slot(length);
                Some(EncodedMatch::CacheRef { index, len_slot })
            },
            None => {
                let bonus: u32 = length_bonus(distance as u64);
                if length < 2 + bonus {
                    return None;
                }
                let len_slot: usize = encode_length_slot(length - bonus);
                let (dist_slot, dist_extra, dbits) = encode_distance_slot(distance);
                Some(EncodedMatch::New { len_slot, dist_slot, dist_extra, dbits })
            },
        }
    }

    /// Advance the distance memory for an emitted match, mirroring the
    /// decoder's cache transitions.
    pub fn remember(&mut self, length: u32, distance: u32)
        ensures
            final(self)@ == remembered(old(self)@, length as int, distance as u64),
    {
        if distance == self.reps[0] && length == self.last_length {
            return;
        }
        match cache_find(&self.reps, distance) {
            Some(index) => {
                cache_touch(&mut self.reps, index);
            },
            None => {
                cache_push(&mut self.reps, distance);
            },
        }
        self.last_length = length;
    }
}

/// What a form costs before any block has been priced.
pub open spec fn estimated_price(f: EncodedMatch) -> int {
    match f {
        EncodedMatch::Repeat => 2,
        EncodedMatch::CacheRef { index, len_slot } => 5int + length_slot_bits(len_slot as int),
        EncodedMatch::New { len_slot, dist_slot, dist_extra, dbits } => 10int + length_slot_bits(
            len_slot as int,
        ) + dbits,
    }
}

/// Estimated bit cost of a match before any block has been priced. `None`
/// when the match cannot be encoded.
fn estimated_match_cost(state: &EncoderMatchState, length: u32, distance: u32) -> (r: Option<u32>)
    requires
        distance > 0,
    ensures
        match (r, match_price(None, state@, length as int, distance as int)) {
            (Some(a), Some(b)) => a == b && a <= 1000,
            (None, None) => true,
            _ => false,
        },
{
    match state.encode_match(length, distance) {
        None => None,
        Some(EncodedMatch::Repeat) => Some(2),
        Some(EncodedMatch::CacheRef { index, len_slot }) => Some(
            5 + length_extra_bits(len_slot) as u32,
        ),
        Some(EncodedMatch::New { len_slot, dist_slot, dist_extra, dbits }) => Some(
            10 + length_extra_bits(len_slot) as u32 + dbits as u32,
        ),
    }
}

/// The code lengths that tokens are priced with.
pub struct TokenPrices {
    pub nc: Vec<u8>,
    pub dc: Vec<u8>,
    pub ldc: Vec<u8>,
    pub rc: Vec<u8>,
}

/// The price of a code length; a symbol without a code has a price too.
pub open spec fn code_price(bits: u8) -> int {
    if bits == 0 {
        UNUSED_SYMBOL_COST as int
    } else {
        bits as int
    }
}

/// The price of a form under code lengths.
pub open spec fn form_price(p: TokenPrices, f: EncodedMatch) -> int {
    match f {
        EncodedMatch::Repeat => code_price(p.nc@[SYM_REPEAT as int]),
        EncodedMatch::CacheRef { index, len_slot } => code_price(p.nc@[SYM_CACHE_BASE + index])
            + code_price(p.rc@[len_slot as int]) + length_slot_bits(len_slot as int),
        EncodedMatch::New { len_slot, dist_slot, dist_extra, dbits } => code_price(
            p.nc@[SYM_MATCH_BASE + len_slot],
        ) + length_slot_bits(len_slot as int) + code_price(p.dc@[dist_slot as int]) + if dbits >= 4 {
            dbits - 4 + code_price(p.ldc@[dist_extra as int % 16])
        } else {
            dbits as int
        },
    }
}

/// The price of a match, by code lengths or by estimate.
pub open spec fn match_price(
    prices: Option<TokenPrices>,
    g: Memory,
    length: int,
    distance: int,
) -> Option<int> {
    match match_form(g, length, distance) {
        None => None,
        Some(f) => Some(
            match prices {
                Some(p) => form_price(p, f),
                None => estimated_price(f),
            },
        ),
    }
}

/// The price of a literal, by code lengths or by estimate.
pub open spec fn literal_price(prices: Option<TokenPrices>, byte: u8) -> int {
    match prices {
        Some(p) => code_price(p.nc@[byte as int]),
        None => ESTIMATED_LITERAL_COST as int,
    }
}

impl TokenPrices {
    pub open spec fn wf(&self) -> bool {
        &&& self.nc@.len() == HUFF_NC
        &&& self.dc@.len() >= HUFF_DC
        &&& self.ldc@.len() == HUFF_LDC
        &&& self.rc@.len() == HUFF_RC
    }

    fn code(bits: u8) -> (c: u32)
        ensures
            c == code_price(bits),
    {
        if bits == 0 {
            UNUSED_SYMBOL_COST as u32
        } else {
            bits as u32
        }
    }

    /// What a literal costs.
    pub fn literal(&self, byte: u8) -> (c: u32)
        requires
            self.wf(),
        ensures
            c == literal_price(Some(*self), byte),
            c <= 1000,
    {
        Self::code(self.nc[byte as usize])
    }

    /// What a match costs. `None` when it cannot be encoded.
    pub fn match_cost(&self, state: &EncoderMatchState, length: u32, distance: u32) -> (r: Option<
        u32,
    >)
        requires
            self.wf(),
            distance > 0,
        ensures
            match (r, match_price(Some(*self), state@, length as int, distance as int)) {
                (Some(a), Some(b)) => a == b && a <= 1000,
                (None, None) => true,
                _ => false,
            },
    {
        match state.encode_match(length, distance) {
            None => None,
            Some(EncodedMatch::Repeat) => Some(Self::code(self.nc[SYM_REPEAT])),
            Some(EncodedMatch::CacheRef { index, len_slot }) => Some(
                Self::code(self.nc[SYM_CACHE_BASE + index]) + Self::code(self.rc[len_slot])
                    + length_extra_bits(len_slot) as u32,
            ),
            Some(EncodedMatch::New { len_slot, dist_slot, dist_extra, dbits }) => {
                let distance_bits: u32 = if dbits >= 4 {
                    dbits as u32 - 4 + Self::code(self.ldc[(dist_extra % 16) as usize])
                } else {
                    dbits as u32
                };
                Some(
                    Self::code(self.nc[SYM_MATCH_BASE + len_slot]) + length_extra_bits(
                        len_slot,
                    ) as u32 + Self::code(self.dc[dist_slot]) + distance_bits,
                )
            },
        }
    }
}

/// The longest match at a distance that is written as one of `length` is, but
/// for the bits within the length slot.
pub open spec fn same_form_end(g: Memory, length: int, distance: int) -> int
    decreases MAX_MATCH - length,
{
    if length < MAX_MATCH && match_form(g, length, distance) is Some && match_form(
        g,
        length + 1,
        distance,
    ) == match_form(g, length, distance) {
        same_form_end(g, length + 1, distance)
    } else {
        length
    }
}

proof fn lemma_same_form_end(g: Memory, length: int, distance: int, end: int)
    requires
        length <= end <= MAX_MATCH,
        forall|l: int|
            length <= l <= end ==> #[trigger] match_form(g, l, distance) == match_form(
                g,
                length,
                distance,
            ),
        match match_form(g, length, distance) {
            Some(form) => end < MAX_MATCH ==> match_form(g, end + 1, distance) != Some(form),
            None => end == length,
        },
    ensures
        same_form_end(g, length, distance) == end,
    decreases end - length,
{
    if length < end {
        assert(match_form(g, length + 1, distance) == match_form(g, length, distance));
        assert forall|l: int| length + 1 <= l <= end implies #[trigger] match_form(g, l, distance)
            == match_form(g, length + 1, distance) by {}
        lemma_same_form_end(g, length + 1, distance, end);
    }
}

/// The longest match at `distance` that is written as one of `length` is, but
/// for the bits within the length slot, and so costs what it costs. Only the
/// length slot varies with length, and a slot covers a run of consecutive
/// lengths, so the end of that run is the last length worth pricing.
fn same_price_run_end(state: &EncoderMatchState, length: u32, distance: u32) -> (end: u32)
    requires
        2 <= length <= MAX_MATCH,
        distance > 0,
    ensures
        length <= end <= MAX_MATCH,
        end == same_form_end(state@, length as int, distance as int),
        forall|l: int|
            length <= l <= end ==> #[trigger] match_form(state@, l, distance as int) == match_form(
                state@,
                length as int,
                distance as int,
            ),
        match match_form(state@, length as int, distance as int) {
            Some(form) => end < MAX_MATCH ==> match_form(state@, end + 1, distance as int) != Some(
                form,
            ),
            None => end == length,
        },
{
    // Repeating the last distance at the last length codes in a couple of
    // bits, so that one length is priced on its own.
    let repeats: bool = distance == state.reps[0] && state.last_length != 0;
    if repeats && state.last_length == length {
        proof {
            lemma_same_form_end(state@, length as int, distance as int, length as int);
        }
        return length;
    }
    let bonus: u32 = match cache_find(&state.reps, distance) {
        Some(_) => 0,
        None => length_bonus(distance as u64),
    };
    if length < 2 + bonus {
        proof {
            lemma_same_form_end(state@, length as int, distance as int, length as int);
        }
        return length;
    }
    let slot: usize = encode_length_slot(length - bonus);
    let mut end: u32 = slot_last_length(slot) + bonus;
    if end < length {
        end = length;
    }
    if repeats && state.last_length > length && end >= state.last_length {
        end = state.last_length - 1;
    }
    if end > MAX_MATCH {
        end = MAX_MATCH;
    }
    proof {
        let g = state@;
        let d = distance as int;
        if end < MAX_MATCH {
            lemma_length_slot_exists(end + 1 - bonus);
            lemma_length_slot_unique(length - bonus, slot as int);
        }
        assert forall|l: int| length <= l <= end implies #[trigger] match_form(g, l, d)
            == match_form(g, length as int, d) by {
            assert(in_length_slot(l - bonus, slot as int));
            lemma_length_slot_unique(l - bonus, slot as int);
            assert(!(g.reps[0] == d && g.last == l && l != 0));
            assert(!(g.reps[0] == d && g.last == length && length != 0));
        }
        lemma_same_form_end(g, length as int, d, end as int);
    }
    end
}

// ── Where blocks end ───────────────────────────────────────────────────────

/// Base parse-block size; blocks extend up to `MAX_BLOCK_SIZE` while the byte
/// distribution stays stable.
pub const OPT_BLOCK_SIZE: usize = 65536;

/// Most output bytes of one block.
pub const MAX_BLOCK_SIZE: usize = 0x20000;

/// How often `b` occurs in `s`.
pub open spec fn occurrences(s: Seq<u8>, b: u8) -> nat
    decreases s.len(),
{
    if s.len() == 0 {
        0
    } else {
        occurrences(s.drop_last(), b) + if s.last() == b {
            1nat
        } else {
            0nat
        }
    }
}

/// How far the counts of the first `k` byte values are from those of a block
/// of `open` bytes, scaled to common terms.
pub open spec fn misplaced(counts: Seq<u32>, open: int, chunk: Seq<u8>, k: nat) -> int
    decreases k,
{
    if k == 0 {
        0
    } else {
        let theirs = occurrences(chunk, (k - 1) as u8) * open;
        let ours = counts[k - 1] * chunk.len();
        misplaced(counts, open, chunk, (k - 1) as nat) + if theirs < ours {
            ours - theirs
        } else {
            theirs - ours
        }
    }
}

/// Decides where one parse block ends, from the raw bytes alone. Blocks
/// grow over data whose byte distribution is not moving.
pub struct BlockSplitter {
    pub counts: [u32; 256],
    pub total: u64,
}

impl BlockSplitter {
    pub open spec fn wf(&self) -> bool {
        &&& self.total <= MAX_BLOCK_SIZE
        &&& forall|i: int| 0 <= i < 256 ==> #[trigger] self.counts@[i] <= self.total
    }

    pub fn new() -> (s: BlockSplitter)
        ensures
            s.wf(),
            s.total == 0,
            forall|i: int| 0 <= i < 256 ==> #[trigger] s.counts@[i] == 0,
    {
        BlockSplitter { counts: [0; 256], total: 0 }
    }

    /// Take `chunk` into the open block.
    pub fn accept(&mut self, chunk: &[u8])
        requires
            old(self).wf(),
            old(self).total + chunk@.len() <= MAX_BLOCK_SIZE,
        ensures
            final(self).wf(),
            final(self).total == old(self).total + chunk@.len(),
            forall|i: int|
                0 <= i < 256 ==> #[trigger] final(self).counts@[i] == old(self).counts@[i]
                    + occurrences(chunk@, i as u8),
    {
        let n: usize = chunk.len();
        let mut i: usize = 0;
        while i < n
            invariant
                i <= n,
                n == chunk@.len(),
                old(self).wf(),
                old(self).total + n <= MAX_BLOCK_SIZE,
                self.total == old(self).total,
                forall|j: int|
                    0 <= j < 256 ==> #[trigger] self.counts@[j] == old(self).counts@[j]
                        + occurrences(chunk@.subrange(0, i as int), j as u8),
                forall|j: int| 0 <= j < 256 ==> #[trigger] self.counts@[j] <= self.total + i,
            decreases n - i,
        {
            let b: usize = chunk[i] as usize;
            let ghost s = chunk@.subrange(0, i + 1);
            proof {
                assert(s.drop_last() =~= chunk@.subrange(0, i as int));
                assert(s.last() == chunk@[i as int]);
            }
            self.counts[b] = self.counts[b] + 1;
            i = i + 1;
        }
        assert(chunk@.subrange(0, n as int) =~= chunk@);
        self.total = self.total + n as u64;
    }

    /// Whether the open block should swallow `chunk` rather than end before
    /// it.
    pub fn extends(&self, chunk: &[u8]) -> (r: bool)
        requires
            self.wf(),
            chunk@.len() <= OPT_BLOCK_SIZE,
        ensures
            r == (self.total > 0 && chunk@.len() > 0 && self.total + chunk@.len() <= MAX_BLOCK_SIZE
                && misplaced(self.counts@, self.total as int, chunk@, 256) / (self.total as int)
                <= chunk@.len() / 128),
    {
        let open: u64 = self.total;
        if open == 0 || chunk.len() == 0 {
            return false;
        }
        if open + chunk.len() as u64 > MAX_BLOCK_SIZE as u64 {
            return false;
        }
        let mut theirs = BlockSplitter::new();
        theirs.accept(chunk);
        let chunk_len: u64 = chunk.len() as u64;
        let mut sum: u64 = 0;
        let mut i: usize = 0;
        while i < 256
            invariant
                i <= 256,
                self.wf(),
                theirs.wf(),
                open == self.total,
                chunk_len == chunk@.len(),
                chunk_len <= OPT_BLOCK_SIZE,
                forall|j: int|
                    0 <= j < 256 ==> #[trigger] theirs.counts@[j] == occurrences(chunk@, j as u8),
                sum == misplaced(self.counts@, open as int, chunk@, i as nat),
                sum <= i * 0x4_0000_0000,
            decreases 256 - i,
        {
            proof {
                assert(theirs.counts@[i as int] * open <= 0x4_0000_0000) by (nonlinear_arith)
                    requires
                        theirs.counts@[i as int] <= 0x20000,
                        open <= 0x20000,
                ;
                assert(self.counts@[i as int] * chunk_len <= 0x4_0000_0000) by (nonlinear_arith)
                    requires
                        self.counts@[i as int] <= 0x20000,
                        chunk_len <= 0x20000,
                ;
            }
            let a: u64 = theirs.counts[i] as u64 * open;
            let b: u64 = self.counts[i] as u64 * chunk_len;
            let d: u64 = if a < b { b - a } else { a - b };
            sum = sum + d;
            i = i + 1;
        }
        sum / open <= chunk_len / 128
    }
}

// ── Long-range candidates ──────────────────────────────────────────────────

/// A long-range history to search, and where the chunk stands in it.
#[derive(Clone, Copy)]
pub struct LongRangeProbe<'a> {
    pub table: &'a LongRange,
    /// Distances up to this are the near search's business.
    pub near_max: usize,
    /// The chunk's start, as a position in the history.
    pub anchor: usize,
    /// The chunk's start in the frame.
    pub chunk_start: usize,
}

/// The history agrees with the stream `full`, the chunk starting at `at`.
pub open spec fn history_agrees(hist: Seq<u8>, full: Seq<u8>, at: int, anchor: int) -> bool {
    &&& 0 <= anchor <= at
    &&& forall|k: int|
        0 <= k < hist.len() && at - anchor + k < full.len() ==> #[trigger] hist[k] == full[at
            - anchor + k]
}

/// The frame is the end of the stream, and the probe fits both.
pub open spec fn probe_ok(
    lr: Option<LongRangeProbe<'_>>,
    full: Seq<u8>,
    frame: Seq<u8>,
    window: int,
) -> bool {
    match lr {
        None => true,
        Some(p) => {
            &&& p.table.wf()
            &&& p.table.max_distance() <= window
            &&& p.anchor <= p.table.history().len()
            &&& p.chunk_start <= frame.len()
            &&& p.near_max < usize::MAX
            &&& frame.len() <= p.near_max + 1
            &&& history_agrees(
                p.table.history(),
                full,
                full.len() - frame.len() + p.chunk_start,
                p.anchor as int,
            )
        },
    }
}

proof fn lemma_history_match(
    hist: Seq<u8>,
    full: Seq<u8>,
    at: int,
    anchor: int,
    chunk: Seq<u8>,
    off: int,
    d: int,
    l: int,
    window: int,
)
    requires
        history_agrees(hist, full, at, anchor),
        at + chunk.len() == full.len(),
        full.subrange(at, full.len() as int) =~= chunk,
        history_match(hist, chunk, off, anchor, d, l),
        d <= window,
        0 <= l,
    ensures
        valid_match(full, at + off, d, l, window),
{
    let p = at + off;
    assert forall|i: int| p <= i < p + l implies #[trigger] full[i] == full[i - d] by {
        let j = i - p;
        let k = anchor + off - d;
        assert(chunk[off + j] == hist[k + j]);
        assert(full.subrange(at, full.len() as int)[off + j] == full[i]);
        assert(hist[k + j] == full[at - anchor + (k + j)]);
    }
}

/// A run as the history's search gives it, distance first.
pub open spec fn distance_first(run: Option<(u32, u32)>) -> Option<(u32, usize)> {
    match run {
        Some((l, d)) => Some((d, l as usize)),
        None => None,
    }
}

/// A near match of this length is taken without a look at the history.
pub const LONG_ENOUGH_NEAR: usize = 64;

/// What a long-range search works on: a history, the chunk's start in it and in
/// the frame, the distances that are the near search's business, and the
/// farthest one.
pub ghost struct FarGround {
    pub hist: Seq<u8>,
    pub anchor: int,
    pub chunk_start: int,
    pub near_max: int,
    pub max_distance: int,
}

impl FarGround {
    /// The `l` bytes at `pos` repeat those at the history's latest sample with
    /// the hash of the first eight, at a distance that is wanted.
    pub open spec fn repeats(self, frame: Seq<u8>, pos: int, l: int) -> bool {
        let chunk = frame.subrange(self.chunk_start, frame.len() as int);
        let off = pos - self.chunk_start;
        let sample = sample_of(self.hist, hash8(chunk, off));
        let dist = self.anchor + off - sample;
        &&& sample >= 0
        &&& self.near_max < dist <= self.max_distance
        &&& dist <= u32::MAX
        &&& history_match(self.hist, chunk, off, self.anchor, dist, l)
    }
}

/// The ground of a probe.
pub open spec fn far_ground(lr: Option<LongRangeProbe<'_>>) -> Option<FarGround> {
    match lr {
        Some(p) => Some(
            FarGround {
                hist: p.table.history(),
                anchor: p.anchor as int,
                chunk_start: p.chunk_start as int,
                near_max: p.near_max as int,
                max_distance: p.table.max_distance(),
            },
        ),
        None => None,
    }
}

/// A match of `found` bytes at `pos` is no shorter than the one in the history,
/// or, with `enough`, long enough without.
pub open spec fn beats_far(
    far: Option<FarGround>,
    frame: Seq<u8>,
    pos: int,
    limit: int,
    found: int,
    enough: int,
) -> bool {
    match far {
        Some(f) => forall|l: int|
            8 <= l <= limit && #[trigger] f.repeats(frame, pos, l) ==> found >= l || found
                >= enough,
        None => true,
    }
}

/// Look for a long-range match at `pos`, no longer than `max_len`: that of
/// the sampled position of the history, if eight bytes agree there and the
/// near search does not reach that far.
pub fn probe_long_range(
    lr: LongRangeProbe<'_>,
    frame: &[u8],
    pos: usize,
    end: usize,
    max_len: usize,
    Ghost(full): Ghost<Seq<u8>>,
    Ghost(window): Ghost<int>,
) -> (r: Option<(u32, u32)>)
    requires
        is_suffix(frame@, full),
        probe_ok(Some(lr), full, frame@, window),
        lr.chunk_start <= pos <= end <= frame@.len(),
        max_len <= MAX_MATCH,
    ensures
        match r {
            Some((l, d)) => 8 <= l <= max_len && l <= end - pos && d >= 1 && valid_match(
                full,
                full.len() - frame@.len() + pos,
                d as int,
                l as int,
                window,
            ),
            None => true,
        },
        lr.table.takes_sample(
            frame@.subrange(lr.chunk_start as int, frame@.len() as int),
            pos - lr.chunk_start,
            lr.anchor as int,
            lr.near_max + 1,
            if end - pos < max_len {
                end - pos
            } else {
                max_len as int
            },
            distance_first(r),
        ),
        r matches Some((_, d)) ==> lr.near_max < d <= lr.table.max_distance(),
        forall|l: int|
            8 <= l <= max_len && l <= end - pos && #[trigger] far_ground(Some(lr))->Some_0.repeats(
                frame@,
                pos as int,
                l,
            ) ==> (r matches Some((n, _)) && n >= l),
{
    let n: usize = frame.len();
    let chunk = vstd::slice::slice_subrange(frame, lr.chunk_start, n);
    let cap: usize = if end - pos < max_len {
        end - pos
    } else {
        max_len
    };
    match lr.table.find_from(chunk, pos - lr.chunk_start, lr.anchor, lr.near_max + 1, cap) {
        Some((d, l)) => {
            proof {
                let at = full.len() - n + lr.chunk_start;
                assert(full.subrange(at, full.len() as int) =~= chunk@) by {
                    let f = full.subrange(full.len() - n, full.len() as int);
                    assert(f == frame@);
                    assert forall|i: int| 0 <= i < chunk@.len() implies full.subrange(
                        at,
                        full.len() as int,
                    )[i] == chunk@[i] by {
                        assert(f[lr.chunk_start + i] == frame@[lr.chunk_start + i]);
                    }
                }
                lemma_history_match(
                    lr.table.history(),
                    full,
                    at,
                    lr.anchor as int,
                    chunk@,
                    pos - lr.chunk_start,
                    d as int,
                    l as int,
                    window,
                );
            }
            Some((l as u32, d))
        },
        None => None,
    }
}

// ── Collecting matches ─────────────────────────────────────────────────────

/// One match finder result list for a block: every position's runs, one
/// position after another. Each run is `(length, distance)`.
pub struct BlockMatches {
    pub runs: Vec<(u32, u32)>,
    pub starts: Vec<usize>,
}

/// All runs of the positions from `start` on are matches.
pub open spec fn block_matches_ok(
    m: BlockMatches,
    full: Seq<u8>,
    start: int,
    span: int,
    window: int,
) -> bool {
    &&& m.starts@.len() == span + 1
    &&& forall|i: int|
        0 <= i < span ==> (#[trigger] m.starts@[i]) <= m.starts@[i + 1]
    &&& forall|i: int| 0 <= i <= span ==> (#[trigger] m.starts@[i]) <= m.runs@.len()
    &&& forall|i: int, j: int|
        #![trigger m.starts@[i], m.runs@[j]]
        0 <= i < span && m.starts@[i] <= j < m.starts@[i + 1] ==> run_ok(
            full,
            start + i,
            m.runs@[j],
            window,
        )
}

/// A run is a match at `p`.
pub open spec fn run_ok(full: Seq<u8>, p: int, run: (u32, u32), window: int) -> bool {
    run.1 >= 1 && valid_match(full, p, run.1 as int, run.0 as int, window)
}

/// The ground of a search of `frame[start..end]`.
pub open spec fn search_ground(
    frame: Seq<u8>,
    start: int,
    end: int,
    max_match: int,
    window: int,
    far: Option<FarGround>,
) -> SearchGround {
    SearchGround { frame, start, span: end - start, max_match, window, far }
}

proof fn lemma_starts_sorted(starts: Seq<usize>, k: int)
    requires
        0 <= k < starts.len(),
        forall|i: int| 0 <= i < starts.len() - 1 ==> (#[trigger] starts[i]) <= starts[i + 1],
    ensures
        forall|i: int| 0 <= i <= k ==> #[trigger] starts[i] <= starts[k],
    decreases k,
{
    if k > 0 {
        lemma_starts_sorted(starts, k - 1);
        assert(starts[k - 1] <= starts[k - 1 + 1]);
    }
}

/// What a search for the matches of a block works on.
pub ghost struct SearchGround {
    pub frame: Seq<u8>,
    /// The block's start in the frame, and its length.
    pub start: int,
    pub span: int,
    pub max_match: int,
    pub window: int,
    /// What is searched beyond the window's near end.
    pub far: Option<FarGround>,
}

impl SearchGround {
    /// Longest match that the block has room for at its position `i`.
    pub open spec fn room(self, i: int) -> int {
        if self.span - i < self.max_match {
            self.span - i
        } else {
            self.max_match
        }
    }

    /// How far matches are compared at position `i`.
    pub open spec fn limit(self, i: int) -> int {
        let avail = self.frame.len() - (self.start + i);
        let reach = if avail < self.max_match {
            avail
        } else {
            self.max_match
        };
        if reach < NICE_MATCH_LENGTH {
            reach
        } else {
            NICE_MATCH_LENGTH as int
        }
    }

    /// Farthest distance that is searched at position `i`.
    pub open spec fn reach(self, i: int) -> int {
        if self.start + i < self.window {
            self.start + i
        } else {
            self.window
        }
    }

    /// A run at position `k` is long enough to be taken without a look at
    /// what it covers, and covers position `i`.
    pub open spec fn covers(self, run: (u32, u32), k: int, i: int) -> bool {
        let l = if run.0 < self.room(k) {
            run.0 as int
        } else {
            self.room(k)
        };
        l >= NICE_MATCH_LENGTH && i < k + l
    }

    /// A long match covers position `i`.
    pub open spec fn covered(self, starts: Seq<usize>, runs: Seq<(u32, u32)>, i: int) -> bool {
        exists|k: int, j: int|
            0 <= k < i && starts[k] <= j < starts[k + 1] && #[trigger] self.covers(runs[j], k, i)
    }

    /// Position `k` has no run from the history, or, of the near ones, none of
    /// sixteen bytes.
    pub open spec fn missed(
        self,
        starts: Seq<usize>,
        runs: Seq<(u32, u32)>,
        k: int,
        far: bool,
    ) -> bool {
        forall|j: int|
            starts[k] <= j < starts[k + 1] && ((#[trigger] runs[j]).1 > self.start + k) == far
                ==> !far && runs[j].0 < 16
    }

    /// The positions from `from` to `to` all missed.
    #[verifier::opaque]
    pub open spec fn all_missed(
        self,
        starts: Seq<usize>,
        runs: Seq<(u32, u32)>,
        from: int,
        to: int,
        far: bool,
    ) -> bool {
        forall|k: int| from <= k < to ==> #[trigger] self.missed(starts, runs, k, far)
    }

    /// The last 4096 positions before `i` missed, and `i` is none of those that
    /// are searched all the same.
    pub open spec fn thinned(
        self,
        starts: Seq<usize>,
        runs: Seq<(u32, u32)>,
        i: int,
        far: bool,
    ) -> bool {
        &&& i >= 4096
        &&& (self.start + i) % (FAST_RECOVER_INTERVAL as int) != 0
        &&& self.all_missed(starts, runs, i - 4096, i, far)
    }

    /// What missed still does as more positions follow.
    proof fn lemma_still_missed(
        self,
        starts: Seq<usize>,
        runs: Seq<(u32, u32)>,
        starts2: Seq<usize>,
        runs2: Seq<(u32, u32)>,
        from: int,
        to: int,
        far: bool,
    )
        requires
            self.all_missed(starts, runs, from, to, far),
            0 <= from,
            to < starts.len(),
            starts.len() <= starts2.len(),
            forall|k: int| 0 <= k < starts.len() ==> #[trigger] starts2[k] == starts[k],
            forall|k: int| 0 <= k <= to ==> #[trigger] starts[k] <= runs.len(),
            runs.len() <= runs2.len(),
            forall|j: int| 0 <= j < runs.len() ==> #[trigger] runs2[j] == runs[j],
        ensures
            self.all_missed(starts2, runs2, from, to, far),
    {
        reveal(SearchGround::all_missed);
        assert forall|k: int| from <= k < to implies #[trigger] self.missed(
            starts2,
            runs2,
            k,
            far,
        ) by {
            assert(self.missed(starts, runs, k, far));
            assert(starts2[k] == starts[k] && starts2[k + 1] == starts[k + 1]);
            assert(starts[k + 1] <= runs.len());
            assert forall|j: int|
                starts2[k] <= j < starts2[k + 1] && ((#[trigger] runs2[j]).1 > self.start + k)
                    == far implies !far && runs2[j].0 < 16 by {
                assert(runs2[j] == runs[j]);
            }
        }
    }

    /// What missed behind one more position, with `near` the runs once the near
    /// search is done and `runs2` in the end.
    proof fn lemma_missed_step(
        self,
        starts: Seq<usize>,
        runs: Seq<(u32, u32)>,
        near: Seq<(u32, u32)>,
        runs2: Seq<(u32, u32)>,
        at: int,
        longest: int,
        tree: int,
        tree2: int,
        lr: int,
        lr2: int,
    )
        requires
            self.all_missed(starts, runs, at - tree, at, false),
            self.all_missed(starts, runs, at - lr, at, true),
            0 <= tree <= at,
            0 <= lr <= at,
            starts.len() == at + 1,
            forall|k: int| 0 <= k <= at ==> #[trigger] starts[k] <= runs.len(),
            starts[at] == runs.len(),
            runs.len() <= near.len() <= runs2.len() <= usize::MAX,
            forall|j: int| 0 <= j < runs.len() ==> #[trigger] runs2[j] == runs[j],
            forall|j: int| 0 <= j < near.len() ==> #[trigger] runs2[j] == near[j],
            forall|j: int|
                runs.len() <= j < near.len() ==> (#[trigger] near[j]).0 <= longest && near[j].1
                    <= self.start + at,
            forall|j: int| near.len() <= j < runs2.len() ==> (#[trigger] runs2[j]).1 > self.start + at,
            tree2 == 0 || tree2 == tree + 1 && longest < 16,
            lr2 == 0 || 0 <= lr2 <= lr + 1 && runs2.len() == near.len(),
        ensures
            ({
                let starts2 = starts.push(runs2.len() as usize);
                &&& self.all_missed(starts2, runs2, at + 1 - tree2, at + 1, false)
                &&& self.all_missed(starts2, runs2, at + 1 - lr2, at + 1, true)
                &&& tree >= 4096 ==> self.all_missed(starts2, runs2, at - 4096, at, false)
                &&& lr >= 4096 ==> self.all_missed(starts2, runs2, at - 4096, at, true)
            }),
    {
        let starts2 = starts.push(runs2.len() as usize);
        self.lemma_still_missed(starts, runs, starts2, runs2, at - tree, at, false);
        self.lemma_still_missed(starts, runs, starts2, runs2, at - lr, at, true);
        reveal(SearchGround::all_missed);
        assert(starts2[at] == runs.len() && starts2[at + 1] == runs2.len());
        if tree2 > 0 {
            assert forall|j: int|
                starts2[at] <= j < starts2[at + 1] && ((#[trigger] runs2[j]).1 > self.start + at)
                    == false implies runs2[j].0 < 16 by {
                assert(runs2[j] == near[j]);
            }
            assert(self.missed(starts2, runs2, at, false));
        }
        if lr2 > 0 {
            assert forall|j: int| starts2[at] <= j < starts2[at + 1] implies (#[trigger] runs2[j]).1
                <= self.start + at by {
                assert(runs2[j] == near[j]);
            }
            assert(self.missed(starts2, runs2, at, true));
        }
    }

    /// The longest run of position `i` is no shorter than the match in the
    /// history; or the history was not searched there, since a long match
    /// covers the position, it had nothing for a while, or the data ends.
    pub open spec fn probed(self, starts: Seq<usize>, runs: Seq<(u32, u32)>, i: int) -> bool {
        let pos = self.start + i;
        let longest = if starts[i] < starts[i + 1] {
            runs[starts[i + 1] - 1].0 as int
        } else {
            0
        };
        ||| self.covered(starts, runs, i)
        ||| self.thinned(starts, runs, i, true)
        ||| self.frame.len() - pos < 4
        ||| beats_far(
            self.far,
            self.frame,
            pos,
            self.room(i),
            longest,
            LONG_ENOUGH_NEAR as int,
        )
    }

    /// Position `i` may be passed over: a long match covers it, nothing was
    /// found for a while, or there is nothing to find.
    pub open spec fn may_skip(
        self,
        starts: Seq<usize>,
        runs: Seq<(u32, u32)>,
        i: int,
    ) -> bool {
        ||| self.covered(starts, runs, i)
        ||| self.thinned(starts, runs, i, false)
        ||| self.reach(i) <= 0
        ||| self.room(i) < 4
        ||| self.frame.len() - (self.start + i) <= 3
    }

    /// Position `i` was searched and taken in, and a repeat at the nearest
    /// position with its hash is the first run reported; or it may be passed
    /// over. The history was searched too.
    #[verifier::opaque]
    pub open spec fn looked(
        self,
        before: MatchFinder,
        after: MatchFinder,
        starts: Seq<usize>,
        runs: Seq<(u32, u32)>,
        i: int,
    ) -> bool {
        let pos = self.start + i;
        let nearest = before.nearest(self.frame, pos);
        &&& self.probed(starts, runs, i)
        &&& {
            ||| after == before && self.may_skip(starts, runs, i)
            ||| after.has_taken(&before, self.frame, pos) && forall|l: int|
                #![trigger agrees_for(self.frame, pos, nearest, l)]
                1 <= nearest <= self.reach(i) && 4 <= l <= self.limit(i) && agrees_for(
                    self.frame,
                    pos,
                    nearest,
                    l,
                ) ==> starts[i] < starts[i + 1] && runs[starts[i] as int].0 >= l
                    && runs[starts[i] as int].1 == nearest
        }
    }

    /// A position that was searched was looked at.
    proof fn lemma_looked(
        self,
        before: MatchFinder,
        after: MatchFinder,
        starts: Seq<usize>,
        runs: Seq<(u32, u32)>,
        i: int,
        first: int,
    )
        requires
            self.probed(starts, runs, i),
            after.has_taken(&before, self.frame, self.start + i),
            starts[i] == first,
            forall|l: int|
                #![trigger agrees_for(
                    self.frame,
                    self.start + i,
                    before.nearest(self.frame, self.start + i),
                    l,
                )]
                1 <= before.nearest(self.frame, self.start + i) <= self.reach(i) && 4 <= l
                    <= self.limit(i) && agrees_for(
                    self.frame,
                    self.start + i,
                    before.nearest(self.frame, self.start + i),
                    l,
                ) ==> first < starts[i + 1] && runs[first].0 >= l && runs[first].1
                    == before.nearest(self.frame, self.start + i),
        ensures
            self.looked(before, after, starts, runs, i),
    {
        reveal(SearchGround::looked);
    }

    /// A position that may be passed over was looked at.
    proof fn lemma_skipped(
        self,
        before: MatchFinder,
        starts: Seq<usize>,
        runs: Seq<(u32, u32)>,
        i: int,
    )
        requires
            self.probed(starts, runs, i),
            self.may_skip(starts, runs, i),
        ensures
            self.looked(before, before, starts, runs, i),
    {
        reveal(SearchGround::looked);
    }

    /// Every position of the block was looked at in turn; `finders` are the
    /// finders before and after each.
    pub open spec fn collected(self, finders: Seq<MatchFinder>, m: BlockMatches) -> bool {
        &&& finders.len() == self.span + 1
        &&& forall|i: int|
            0 <= i < self.span ==> self.looked(
                #[trigger] finders[i],
                finders[i + 1],
                m.starts@,
                m.runs@,
                i,
            )
    }

    /// A position stays looked at while later ones are.
    proof fn lemma_still_looked(
        self,
        before: MatchFinder,
        after: MatchFinder,
        starts: Seq<usize>,
        runs: Seq<(u32, u32)>,
        starts2: Seq<usize>,
        runs2: Seq<(u32, u32)>,
        i: int,
    )
        requires
            self.looked(before, after, starts, runs, i),
            0 <= i < starts.len() - 1,
            starts.len() <= starts2.len(),
            forall|k: int| 0 <= k < starts.len() ==> #[trigger] starts2[k] == starts[k],
            forall|k: int| 0 <= k < starts.len() ==> #[trigger] starts[k] <= starts[i + 1] || k > i
                + 1,
            starts[i + 1] <= runs.len(),
            runs.len() <= runs2.len(),
            forall|j: int| 0 <= j < runs.len() ==> #[trigger] runs2[j] == runs[j],
        ensures
            self.looked(before, after, starts2, runs2, i),
    {
        reveal(SearchGround::looked);
        if self.covered(starts, runs, i) {
            let (k, j) = choose|k: int, j: int|
                0 <= k < i && starts[k] <= j < starts[k + 1] && #[trigger] self.covers(
                    runs[j],
                    k,
                    i,
                );
            assert(starts[k + 1] <= starts[i + 1]);
            assert(starts2[k] == starts[k] && starts2[k + 1] == starts[k + 1]);
            assert(runs2[j] == runs[j]);
            assert(self.covers(runs2[j], k, i));
            assert(self.covered(starts2, runs2, i));
        }
        assert forall|k: int| 0 <= k <= i implies #[trigger] starts[k] <= runs.len() by {
            assert(starts[k] <= starts[i + 1]);
        }
        if self.thinned(starts, runs, i, true) {
            self.lemma_still_missed(starts, runs, starts2, runs2, i - 4096, i, true);
        }
        if self.thinned(starts, runs, i, false) {
            self.lemma_still_missed(starts, runs, starts2, runs2, i - 4096, i, false);
        }
        assert(starts2[i] == starts[i] && starts2[i + 1] == starts[i + 1]);
        if starts[i] < starts[i + 1] {
            assert(runs2[starts[i + 1] - 1] == runs[starts[i + 1] - 1]);
        }
        assert(self.probed(starts2, runs2, i));
        if after == before && self.may_skip(starts, runs, i) {
            assert(self.may_skip(starts2, runs2, i));
        } else {
            if starts[i] < starts[i + 1] {
                assert(runs2[starts[i] as int] == runs[starts[i] as int]);
            }
        }
    }
}

/// The matches of a block were collected with a finder, which they leave as
/// `after`.
pub open spec fn matches_collected(
    sg: SearchGround,
    before: MatchFinder,
    after: MatchFinder,
    m: BlockMatches,
) -> bool {
    exists|finders: Seq<MatchFinder>| #[trigger]
        sg.collected(finders, m) && finders[0] == before && finders.last() == after
}

/// The first `k` positions were looked at; positions before `committed` are
/// covered by a long match.
spec fn collecting(
    sg: SearchGround,
    finders: Seq<MatchFinder>,
    starts: Seq<usize>,
    runs: Seq<(u32, u32)>,
    committed: int,
    k: int,
) -> bool {
    &&& 0 <= k
    &&& finders.len() == k + 1
    &&& starts.len() == k + 1
    &&& starts[k] == runs.len()
    &&& forall|i: int| 0 <= i < k ==> (#[trigger] starts[i]) <= starts[i + 1]
    &&& forall|i: int|
        0 <= i < k ==> sg.looked(#[trigger] finders[i], finders[i + 1], starts, runs, i)
    &&& committed > sg.start + k ==> exists|h: int, j: int|
        0 <= h < k && starts[h] <= j < starts[h + 1] && #[trigger] sg.covers(
            runs[j],
            h,
            committed - sg.start - 1,
        )
}

/// A position that a long match covers may be passed over.
proof fn lemma_covered_skip(
    sg: SearchGround,
    finders: Seq<MatchFinder>,
    starts: Seq<usize>,
    runs: Seq<(u32, u32)>,
    committed: int,
    k: int,
    starts2: Seq<usize>,
    runs2: Seq<(u32, u32)>,
)
    requires
        collecting(sg, finders, starts, runs, committed, k),
        committed > sg.start + k,
        starts2 == starts.push(runs2.len() as usize),
        runs.len() <= runs2.len(),
        forall|j: int| 0 <= j < runs.len() ==> #[trigger] runs2[j] == runs[j],
    ensures
        sg.covered(starts2, runs2, k),
{
    let (h, j) = choose|h: int, j: int|
        0 <= h < k && starts[h] <= j < starts[h + 1] && #[trigger] sg.covers(
            runs[j],
            h,
            committed - sg.start - 1,
        );
    lemma_starts_sorted(starts, k);
    assert(starts[h + 1] <= starts[k]);
    assert(starts2[h] == starts[h] && starts2[h + 1] == starts[h + 1]);
    assert(runs2[j] == runs[j]);
    assert(sg.covers(runs2[j], h, k));
}

/// One more position was looked at.
proof fn lemma_collect_step(
    sg: SearchGround,
    finders: Seq<MatchFinder>,
    after: MatchFinder,
    starts: Seq<usize>,
    runs: Seq<(u32, u32)>,
    committed: int,
    k: int,
    runs2: Seq<(u32, u32)>,
    committed2: int,
)
    requires
        collecting(sg, finders, starts, runs, committed, k),
        runs.len() <= runs2.len() <= usize::MAX,
        forall|j: int| 0 <= j < runs.len() ==> #[trigger] runs2[j] == runs[j],
        sg.looked(finders.last(), after, starts.push(runs2.len() as usize), runs2, k),
        committed2 == committed || exists|j: int|
            runs.len() <= j < runs2.len() && #[trigger] sg.covers(
                runs2[j],
                k,
                committed2 - sg.start - 1,
            ),
    ensures
        collecting(
            sg,
            finders.push(after),
            starts.push(runs2.len() as usize),
            runs2,
            committed2,
            k + 1,
        ),
{
    let starts2 = starts.push(runs2.len() as usize);
    let finders2 = finders.push(after);
    assert(starts2[k] == runs.len());
    assert(starts2[k + 1] == runs2.len());
    assert forall|i: int| 0 <= i < k + 1 implies sg.looked(
        #[trigger] finders2[i],
        finders2[i + 1],
        starts2,
        runs2,
        i,
    ) by {
        if i < k {
            assert(finders2[i] == finders[i] && finders2[i + 1] == finders[i + 1]);
            lemma_starts_sorted(starts, i + 1);
            lemma_starts_sorted(starts, k);
            sg.lemma_still_looked(
                finders[i],
                finders[i + 1],
                starts,
                runs,
                starts2,
                runs2,
                i,
            );
        } else {
            assert(finders2[i] == finders.last());
        }
    }
    assert forall|i: int| 0 <= i < k + 1 implies (#[trigger] starts2[i]) <= starts2[i + 1] by {
        if i < k {
            assert(starts[i] <= starts[i + 1]);
        }
    }
    if committed2 > sg.start + k + 1 {
        if exists|j: int|
            runs.len() <= j < runs2.len() && #[trigger] sg.covers(
                runs2[j],
                k,
                committed2 - sg.start - 1,
            ) {
            let j = choose|j: int|
                runs.len() <= j < runs2.len() && #[trigger] sg.covers(
                    runs2[j],
                    k,
                    committed2 - sg.start - 1,
                );
            assert(starts2[k] <= j < starts2[k + 1]);
        } else {
            let (h, j) = choose|h: int, j: int|
                0 <= h < k && starts[h] <= j < starts[h + 1] && #[trigger] sg.covers(
                    runs[j],
                    h,
                    committed - sg.start - 1,
                );
            lemma_starts_sorted(starts, k);
            assert(starts[h + 1] <= starts[k]);
            assert(starts2[h] == starts[h] && starts2[h + 1] == starts[h + 1]);
            assert(runs2[j] == runs[j]);
            assert(sg.covers(runs2[j], h, committed2 - sg.start - 1));
        }
    }
}

/// Search one position: append its runs, the last measured out to its real
/// end, and give the length of the longest.
fn near_runs(
    finder: &mut MatchFinder,
    frame: &[u8],
    pos: usize,
    max_distance: usize,
    len_limit: usize,
    reach_limit: usize,
    chain_len: usize,
    runs: &mut Vec<(u32, u32)>,
    Ghost(full): Ghost<Seq<u8>>,
    Ghost(window): Ghost<int>,
) -> (longest: usize)
    requires
        old(finder).wf(),
        len_limit <= reach_limit <= MAX_MATCH,
        pos + reach_limit <= frame@.len(),
        max_distance <= pos,
        max_distance <= window,
        is_suffix(frame@, full),
    ensures
        final(finder).wf(),
        final(runs)@.len() >= old(runs)@.len(),
        forall|j: int| 0 <= j < old(runs)@.len() ==> #[trigger] final(runs)@[j] == old(runs)@[j],
        forall|j: int|
            old(runs)@.len() <= j < final(runs)@.len() ==> run_ok(
                full,
                full.len() - frame@.len() + pos,
                #[trigger] final(runs)@[j],
                window,
            ),
        if final(runs)@.len() > old(runs)@.len() {
            final(runs)@.last().0 == longest
        } else {
            longest == 0
        },
        forall|j: int|
            old(runs)@.len() <= j < final(runs)@.len() ==> (#[trigger] final(runs)@[j]).0 <= longest
                && final(runs)@[j].1 <= max_distance,
        pos <= u32::MAX ==> final(finder).has_taken(&*old(finder), frame@, pos as int),
        pos <= u32::MAX && chain_len > 0 ==> forall|l: int|
            #![trigger agrees_for(
                frame@,
                pos as int,
                old(finder).nearest(frame@, pos as int),
                l,
            )]
            1 <= old(finder).nearest(frame@, pos as int) <= max_distance && 4 <= l <= len_limit
                && agrees_for(
                frame@,
                pos as int,
                old(finder).nearest(frame@, pos as int),
                l,
            ) ==> final(runs)@.len() > old(runs)@.len() && final(runs)@[old(runs)@.len() as int].0
                >= l && final(runs)@[old(runs)@.len() as int].1 == old(finder).nearest(
                frame@,
                pos as int,
            ),
{
    let before: usize = runs.len();
    let ghost runs0 = runs@;
    let ghost delta = full.len() - frame@.len();
    let mut longest: usize = 0;
    finder.matches(frame, pos, len_limit, max_distance, chain_len, runs);
    let ghost runs1 = runs@;
    if runs.len() > before {
        let last: usize = runs.len() - 1;
        let (length, distance) = runs[last];
        assert(runs@[last as int] == (length, distance));
        assert(valid_match(
            frame@,
            pos as int,
            distance as int,
            length as int,
            max_distance as int,
        ));
        longest = length as usize;
        // Measure the last report out to its real end: the finder stops
        // comparing at the limit, and a match reaching it is what the parse
        // commits to and steps over.
        if length as usize == len_limit && len_limit < reach_limit {
            let whole: usize = match_length_at(frame, pos, distance as usize, reach_limit);
            proof {
                if whole < length {
                    assert(frame@[pos + whole] == frame@[pos + whole - distance]);
                }
            }
            runs.set(last, (whole as u32, distance));
            longest = whole;
            assert(valid_match(frame@, pos as int, distance as int, whole as int, window));
        }
    }
    proof {
        assert forall|j: int| before <= j < runs@.len() implies run_ok(
            full,
            delta + pos,
            #[trigger] runs@[j],
            window,
        ) by {
            if runs@[j] == runs1[j] {
                assert(valid_match(
                    frame@,
                    pos as int,
                    runs1[j].1 as int,
                    runs1[j].0 as int,
                    max_distance as int,
                ));
            }
            assert(valid_match(
                frame@,
                pos as int,
                runs@[j].1 as int,
                runs@[j].0 as int,
                window,
            ));
            lemma_valid_match_extend(
                frame@,
                full,
                pos as int,
                runs@[j].1 as int,
                runs@[j].0 as int,
                window,
            );
        }
        assert forall|j: int| 0 <= j < before implies #[trigger] runs@[j] == runs0[j] by {
            assert(runs1.subrange(0, before as int)[j] == runs0[j]);
        }
        let fresh = runs1.skip(before as int);
        if runs1.len() > before {
            assert(fresh[0] == runs1[before as int]);
            assert(runs@[before as int].0 >= runs1[before as int].0);
            assert(runs@[before as int].1 == runs1[before as int].1);
        }
    }
    longest
}

/// The matches that the parse will price at each position of the block
/// `[start, end)`, taking the positions into the finder as it goes.
///
/// Long-range candidates beyond the near window are folded in here; the probe
/// only runs where the finder found nothing useful. After long runs without
/// any match both searches thin out.
#[verifier::rlimit(100)]
#[verifier::spinoff_prover]
fn collect_block_matches(
    finder: &mut MatchFinder,
    frame: &[u8],
    start: usize,
    end: usize,
    chain_len: usize,
    max_match: usize,
    window: usize,
    lr: Option<LongRangeProbe<'_>>,
    Ghost(full): Ghost<Seq<u8>>,
) -> (m: BlockMatches)
    requires
        old(finder).wf(),
        start <= end <= frame@.len(),
        max_match <= MAX_MATCH,
        is_suffix(frame@, full),
        probe_ok(lr, full, frame@, window as int),
        lr is Some ==> lr->Some_0.chunk_start <= start,
    ensures
        final(finder).wf(),
        block_matches_ok(
            m,
            full,
            full.len() - frame@.len() + start,
            end - start,
            window as int,
        ),
        frame@.len() <= u32::MAX && chain_len > 0 ==> matches_collected(
            search_ground(
                frame@,
                start as int,
                end as int,
                max_match as int,
                window as int,
                far_ground(lr),
            ),
            *old(finder),
            *final(finder),
            m,
        ),
{
    let n: usize = frame.len();
    let ghost delta = full.len() - frame@.len();
    let ghost sg = search_ground(
        frame@,
        start as int,
        end as int,
        max_match as int,
        window as int,
        far_ground(lr),
    );
    let ghost small = frame@.len() <= u32::MAX && chain_len > 0;
    let ghost mut finders: Seq<MatchFinder> = seq![*finder];
    let mut runs: Vec<(u32, u32)> = Vec::new();
    let mut starts: Vec<usize> = Vec::new();
    let mut committed_through: usize = start;
    let mut lr_fast: bool = false;
    let mut lr_misses: usize = 0;
    let mut tree_misses: usize = 0;
    let mut fast_tree: bool = false;
    let mut pos: usize = start;
    starts.push(0);
    proof {
        reveal(SearchGround::all_missed);
        assert(sg.all_missed(starts@, runs@, 0, 0, false));
        assert(sg.all_missed(starts@, runs@, 0, 0, true));
    }
    while pos < end
        invariant
            start <= pos <= end <= n,
            n == frame@.len(),
            finder.wf(),
            max_match <= MAX_MATCH,
            is_suffix(frame@, full),
            delta == full.len() - frame@.len(),
            probe_ok(lr, full, frame@, window as int),
            lr is Some ==> lr->Some_0.chunk_start <= start,
            lr_misses <= pos - start,
            tree_misses <= pos - start,
            fast_tree ==> tree_misses >= 4096,
            lr_fast ==> lr_misses >= 4096,
            sg.all_missed(starts@, runs@, pos - start - tree_misses, pos - start, false),
            sg.all_missed(starts@, runs@, pos - start - lr_misses, pos - start, true),
            sg == search_ground(
                frame@,
                start as int,
                end as int,
                max_match as int,
                window as int,
                far_ground(lr),
            ),
            small == (frame@.len() <= u32::MAX && chain_len > 0),
            small ==> collecting(
                sg,
                finders,
                starts@,
                runs@,
                committed_through as int,
                pos - start,
            ),
            finders.len() > 0,
            finders[0] == *old(finder),
            finders.last() == *finder,
            starts@.len() == pos - start + 1,
            starts@[pos - start] == runs@.len(),
            forall|i: int| 0 <= i < pos - start ==> (#[trigger] starts@[i]) <= starts@[i + 1],
            forall|i: int| 0 <= i <= pos - start ==> (#[trigger] starts@[i]) <= runs@.len(),
            forall|i: int, j: int|
                #![trigger starts@[i], runs@[j]]
                0 <= i < pos - start && starts@[i] <= j < starts@[i + 1] ==> run_ok(
                    full,
                    delta + start + i,
                    runs@[j],
                    window as int,
                ),
        decreases end - pos,
    {
        let ghost at = pos - start;
        let ghost fa = *finder;
        let ghost runs0 = runs@;
        let ghost starts0 = starts@;
        let ghost committed0 = committed_through;
        let ghost tree0 = tree_misses as int;
        let ghost lr0 = lr_misses as int;
        let searching: bool = pos >= committed_through;
        let max_distance: usize = if pos < window { pos } else { window };
        let room: usize = end - pos;
        let max_length: usize = if room < max_match { room } else { max_match };
        let avail: usize = n - pos;
        let reach_limit: usize = if avail < max_match { avail } else { max_match };
        let before: usize = runs.len();
        let mut longest: usize = 0;
        let look: bool = searching && max_distance > 0 && max_length >= 4 && avail > 3 && (
        !fast_tree || pos % FAST_RECOVER_INTERVAL == 0);
        if look {
            let len_limit: usize = if reach_limit < NICE_MATCH_LENGTH {
                reach_limit
            } else {
                NICE_MATCH_LENGTH
            };
            longest = near_runs(
                finder,
                frame,
                pos,
                max_distance,
                len_limit,
                reach_limit,
                chain_len,
                &mut runs,
                Ghost(full),
                Ghost(window as int),
            );
        }
        if longest < 16 {
            tree_misses = tree_misses + 1;
            if tree_misses >= 4096 {
                fast_tree = true;
            }
        } else {
            tree_misses = 0;
            fast_tree = false;
        }
        let ghost runs2 = runs@;
        let ghost near_longest = longest as int;
        if searching && longest < LONG_ENOUGH_NEAR && avail >= 4 && (!lr_fast || pos % FAST_RECOVER_INTERVAL == 0) {
            if let Some(probe) = lr {
                let mut hit: bool = false;
                if let Some((l, d)) = probe_long_range(
                    probe,
                    frame,
                    pos,
                    end,
                    max_length,
                    Ghost(full),
                    Ghost(window as int),
                ) {
                    if l as usize > longest {
                        runs.push((l, d));
                        longest = l as usize;
                        hit = true;
                    }
                }
                if hit {
                    lr_fast = false;
                    lr_misses = 0;
                } else {
                    lr_misses = lr_misses + 1;
                    if lr_misses >= 4096 {
                        lr_fast = true;
                    }
                }
            }
        }
        proof {
            assert forall|j: int| before <= j < runs@.len() implies run_ok(
                full,
                delta + pos,
                #[trigger] runs@[j],
                window as int,
            ) by {
                if j < runs2.len() {
                    assert(runs@[j] == runs2[j]);
                }
            }
            assert forall|j: int| 0 <= j < before implies #[trigger] runs@[j] == runs0[j] by {
                assert(runs@[j] == runs2[j]);
            }
        }
        // The parse can only take a match the block still has room for.
        let reach: usize = if longest < max_length { longest } else { max_length };
        if reach >= NICE_MATCH_LENGTH {
            committed_through = pos + reach;
            proof {
                let best = runs@.len() - 1;
                assert(runs@[best].0 == longest);
                assert(sg.covers(runs@[best], at, committed_through - sg.start - 1));
            }
        }
        starts.push(runs.len());
        proof {
            assert(starts@ =~= starts0.push(runs@.len() as usize));
            sg.lemma_missed_step(
                starts0,
                runs0,
                runs2,
                runs@,
                at,
                near_longest,
                tree0,
                tree_misses as int,
                lr0,
                lr_misses as int,
            );
            if small {
                assert(starts@ =~= starts0.push(runs@.len() as usize));
                if !searching {
                    lemma_covered_skip(
                        sg,
                        finders,
                        starts0,
                        runs0,
                        committed0 as int,
                        at,
                        starts@,
                        runs@,
                    );
                }
                assert(sg.probed(starts@, runs@, at)) by {
                    assert(starts@[at] == before && starts@[at + 1] == runs@.len());
                    assert(if runs@.len() > before {
                        runs@.last().0 == longest
                    } else {
                        longest == 0
                    });
                }
                if look {
                    if runs2.len() > before {
                        assert(runs@[before as int] == runs2[before as int]);
                    }
                    sg.lemma_looked(fa, *finder, starts@, runs@, at, before as int);
                } else {
                    sg.lemma_skipped(fa, starts@, runs@, at);
                }
                assert(sg.looked(fa, *finder, starts@, runs@, at));
                lemma_collect_step(
                    sg,
                    finders,
                    *finder,
                    starts0,
                    runs0,
                    committed0 as int,
                    at,
                    runs@,
                    committed_through as int,
                );
            }
            finders = finders.push(*finder);
        }
        pos = pos + 1;
        proof {
            assert forall|i: int, j: int|
                #![trigger starts@[i], runs@[j]]
                0 <= i < pos - start && starts@[i] <= j < starts@[i + 1] implies run_ok(
                full,
                delta + start + i,
                runs@[j],
                window as int,
            ) by {
                if i < pos - start - 1 {
                    assert(starts@[i + 1] <= before);
                    assert(runs@[j] == runs0[j]);
                }
            }
        }
    }
    let m = BlockMatches { runs, starts };
    proof {
        if small {
            assert(sg.collected(finders, m));
        }
    }
    m
}

// ── The optimal parse ──────────────────────────────────────────────────────

/// A token of the parse: `(length, distance)`, or `(0, byte)` for a literal.
/// It stands for this many bytes.
pub open spec fn token_len(token: (u32, u32)) -> int {
    if token.0 == 0 {
        1
    } else {
        token.0 as int
    }
}

/// The token encodes the bytes at `p`, a match of at least four bytes and at
/// most `max_match` or a literal.
pub open spec fn token_ok(
    full: Seq<u8>,
    p: int,
    token: (u32, u32),
    max_match: int,
    window: int,
) -> bool {
    if token.0 == 0 {
        0 <= p < full.len() && token.1 == full[p]
    } else {
        &&& 4 <= token.0 <= max_match
        &&& token.1 >= 1
        &&& valid_match(full, p, token.1 as int, token.0 as int, window)
    }
}

/// Where the tokens start that, listed from the last to the first, end at
/// `end`.
pub open spec fn tokens_start(tokens: Seq<(u32, u32)>, end: int) -> int
    decreases tokens.len(),
{
    if tokens.len() == 0 {
        end
    } else {
        tokens_start(tokens.drop_last(), end) - token_len(tokens.last())
    }
}

/// Every token, listed from the last to the first, encodes its bytes.
pub open spec fn tokens_ok(
    full: Seq<u8>,
    tokens: Seq<(u32, u32)>,
    end: int,
    max_match: int,
    window: int,
) -> bool {
    forall|k: int|
        0 <= k < tokens.len() ==> token_ok(
            full,
            tokens_start(tokens.subrange(0, k + 1), end),
            #[trigger] tokens[k],
            max_match,
            window,
        )
}

proof fn lemma_tokens_push(
    full: Seq<u8>,
    tokens: Seq<(u32, u32)>,
    token: (u32, u32),
    end: int,
    max_match: int,
    window: int,
)
    requires
        tokens_ok(full, tokens, end, max_match, window),
        token_ok(full, tokens_start(tokens, end) - token_len(token), token, max_match, window),
    ensures
        tokens_ok(full, tokens.push(token), end, max_match, window),
        tokens_start(tokens.push(token), end) == tokens_start(tokens, end) - token_len(token),
{
    let more = tokens.push(token);
    assert(more.drop_last() =~= tokens);
    assert forall|k: int| 0 <= k < more.len() implies token_ok(
        full,
        tokens_start(more.subrange(0, k + 1), end),
        #[trigger] more[k],
        max_match,
        window,
    ) by {
        if k < tokens.len() {
            assert(more.subrange(0, k + 1) =~= tokens.subrange(0, k + 1));
            assert(more[k] == tokens[k]);
        } else {
            assert(more.subrange(0, k + 1) =~= more);
        }
    }
}

/// A run of lengths at one distance: `(shortest, longest, distance)`.
pub open spec fn reach_ok(
    full: Seq<u8>,
    p: int,
    r: (u32, u32, u32),
    max_length: int,
    window: int,
) -> bool {
    r.1 <= max_length && r.2 >= 1 && valid_match(full, p, r.2 as int, r.1 as int, window)
}

/// The price of a token under a memory.
pub open spec fn token_price(prices: Option<TokenPrices>, g: Memory, token: (u32, u32)) -> Option<
    int,
> {
    if token.0 == 0 {
        Some(literal_price(prices, token.1 as u8))
    } else {
        match_price(prices, g, token.0 as int, token.1 as int)
    }
}

/// The memory after a token.
pub open spec fn token_memory(g: Memory, token: (u32, u32)) -> Memory {
    if token.0 == 0 {
        g
    } else {
        remembered(g, token.0 as int, token.1 as u64)
    }
}

/// The price of tokens, listed from the last to the first, from a memory on;
/// nothing when one of them cannot be written.
pub open spec fn tokens_price(
    prices: Option<TokenPrices>,
    g: Memory,
    tokens: Seq<(u32, u32)>,
) -> Option<int>
    decreases tokens.len(),
{
    if tokens.len() == 0 {
        Some(0)
    } else {
        let first = tokens.last();
        match (
            token_price(prices, g, first),
            tokens_price(prices, token_memory(g, first), tokens.drop_last()),
        ) {
            (Some(a), Some(b)) => Some(a + b),
            _ => None,
        }
    }
}

/// The nodes of the parse, one before each byte of the block and one behind
/// the last: the cheapest price found for reaching it, the token it was
/// reached by, and the memory after that.
struct ParseNodes {
    price: Vec<u32>,
    length: Vec<u32>,
    distance: Vec<u32>,
    state: Vec<EncoderMatchState>,
}

/// What a parse works on.
struct ParseGround {
    prices: Option<TokenPrices>,
    full: Seq<u8>,
    base: int,
    window: int,
    span: int,
    max_match: int,
    initial: Memory,
    /// The first byte that a match may reach back to.
    low: int,
}

impl ParseNodes {
    spec fn reached(self, t: int) -> bool {
        self.price@[t] != u32::MAX
    }

    /// The prices as numbers.
    spec fn prices(self) -> Seq<int> {
        Seq::new(self.price@.len(), |t: int| self.price@[t] as int)
    }

    spec fn token(self, t: int) -> (u32, u32) {
        (self.length@[t], self.distance@[t])
    }

    /// The node was reached from one before `limit`, at the price of its
    /// token.
    spec fn node_ok(self, g: ParseGround, limit: int, t: int) -> bool {
        let token = self.token(t);
        let f = t - token_len(token);
        &&& 0 <= f < limit
        &&& self.reached(f)
        &&& token_ok(g.full, g.base + f, token, g.max_match, g.window)
        &&& token_price(g.prices, self.state@[f]@, token) == Some(self.price@[t] - self.price@[f])
        &&& self.state@[t]@ == token_memory(self.state@[f]@, token)
        &&& self.price@[t] <= 1000 * t
    }

    spec fn wf(self, g: ParseGround, limit: int) -> bool {
        &&& self.price@.len() == g.span + 1
        &&& self.length@.len() == g.span + 1
        &&& self.distance@.len() == g.span + 1
        &&& self.state@.len() == g.span + 1
        &&& self.price@[0] == 0
        &&& self.state@[0]@ == g.initial
        &&& forall|t: int|
            1 <= t <= g.span && #[trigger] self.reached(t) ==> self.node_ok(g, limit, t)
    }

    /// Prices only fell, and nothing up to `from` changed.
    spec fn improves(self, before: ParseNodes, from: int) -> bool {
        &&& self.price@.len() == before.price@.len()
        &&& self.state@.len() == before.state@.len()
        &&& forall|t: int|
            0 <= t < before.price@.len() ==> (#[trigger] self.price@[t]) <= before.price@[t]
        &&& forall|t: int|
            0 <= t <= from && t < before.price@.len() ==> (#[trigger] self.price@[t])
                == before.price@[t]
        &&& forall|t: int|
            0 <= t <= from && t < before.state@.len() ==> (#[trigger] self.state@[t])
                == before.state@[t]
    }

    /// Reach a node from `from` by a token, if that is cheaper.
    #[verifier::rlimit(40)]
    #[verifier::spinoff_prover]
    fn relax(
        &mut self,
        from: usize,
        token: (u32, u32),
        cost: u32,
        next: EncoderMatchState,
        Ghost(g): Ghost<ParseGround>,
    )
        requires
            old(self).wf(g, from + 1),
            old(self).reached(from as int),
            g.span <= MAX_BLOCK_SIZE,
            token_len(token) >= 1,
            from + token_len(token) <= g.span,
            g.max_match <= MAX_MATCH,
            token_ok(g.full, g.base + from, token, g.max_match, g.window),
            token_price(g.prices, old(self).state@[from as int]@, token) == Some(cost as int),
            next@ == token_memory(old(self).state@[from as int]@, token),
            cost <= 1000,
        ensures
            final(self).wf(g, from + 1),
            final(self).improves(*old(self), from as int),
            final(self).price@[from + token_len(token)] <= old(self).price@[from as int] + cost,
    {
        let len: usize = if token.0 == 0 {
            1
        } else {
            token.0 as usize
        };
        let target: usize = from + len;
        proof {
            if from > 0 {
                assert(self.node_ok(g, from + 1, from as int));
            }
        }
        let here: u32 = self.price[from];
        let reached: u32 = here + cost;
        if reached < self.price[target] {
            let ghost before = *self;
            self.price.set(target, reached);
            self.length.set(target, token.0);
            self.distance.set(target, token.1);
            self.state.set(target, next);
            proof {
                assert forall|t: int| 1 <= t <= g.span && #[trigger] self.reached(t) implies
                    self.node_ok(g, from + 1, t) by {
                    if t != target {
                        assert(before.reached(t));
                        assert(before.node_ok(g, from + 1, t));
                        assert(self.token(t) == before.token(t));
                        let f = t - token_len(before.token(t));
                        assert(f != target);
                        assert(self.price@[f] == before.price@[f]);
                        assert(self.state@[f] == before.state@[f]);
                        assert(before.reached(f));
                    } else {
                        assert(self.token(t) == token);
                        assert(before.reached(from as int));
                    }
                }
            }
        }
    }
}

fn price_of_match(
    prices: &Option<TokenPrices>,
    state: &EncoderMatchState,
    length: u32,
    distance: u32,
) -> (r: Option<u32>)
    requires
        distance > 0,
        match *prices {
            Some(p) => p.wf(),
            None => true,
        },
    ensures
        match (r, match_price(*prices, state@, length as int, distance as int)) {
            (Some(a), Some(b)) => a == b && a <= 1000,
            (None, None) => true,
            _ => false,
        },
{
    match prices {
        Some(p) => p.match_cost(state, length, distance),
        None => estimated_match_cost(state, length, distance),
    }
}

/// Price a run of lengths at one distance, slot by slot: only the longest
/// length of a slot is worth it. Without `whole` each slot takes a step.
fn price_run(
    nodes: &mut ParseNodes,
    prices: &Option<TokenPrices>,
    index: usize,
    reach: (u32, u32, u32),
    whole: bool,
    steps_left: usize,
    Ghost(g): Ghost<ParseGround>,
    Ghost(max_length): Ghost<int>,
) -> (left: usize)
    requires
        old(nodes).wf(g, index + 1),
        old(nodes).reached(index as int),
        g.prices == *prices,
        g.span <= MAX_BLOCK_SIZE,
        index < g.span,
        reach_ok(g.full, g.base + index, reach, max_length, g.window),
        max_length <= g.span - index,
        max_length <= g.max_match,
        g.max_match <= MAX_MATCH,
        reach.0 <= reach.1,
        match *prices {
            Some(p) => p.wf(),
            None => true,
        },
    ensures
        final(nodes).wf(g, index + 1),
        final(nodes).improves(*old(nodes), index as int),
        ({
            let memory = old(nodes).state@[index as int]@;
            let need = run_steps(memory, reach);
            &&& left == if whole {
                steps_left as int
            } else if need <= steps_left {
                steps_left - need
            } else {
                0
            }
            &&& reach.1 >= 4 && (whole || need <= steps_left) ==> (match_price(
                *prices,
                memory,
                reach.1 as int,
                reach.2 as int,
            ) matches Some(c) ==> final(nodes).price@[index + reach.1]
                <= old(nodes).price@[index as int] + c)
        }),
{
    let (run_start, run_end, distance) = reach;
    let state: EncoderMatchState = nodes.state[index];
    let mut left: usize = steps_left;
    let mut length: u32 = if run_start < 4 {
        4
    } else {
        run_start
    };
    let mut going: bool = true;
    let ghost before = *nodes;
    let ghost start = length;
    while going && length <= run_end
        invariant
            length >= 4,
            left <= steps_left,
            run_end <= max_length,
            distance >= 1,
            valid_match(g.full, g.base + index, distance as int, run_end as int, g.window),
            index < g.span,
            g.span <= MAX_BLOCK_SIZE,
            max_length <= g.span - index,
            max_length <= g.max_match,
            g.max_match <= MAX_MATCH,
            g.prices == *prices,
            match *prices {
                Some(p) => p.wf(),
                None => true,
            },
            nodes.wf(g, index + 1),
            nodes.improves(before, index as int),
            nodes.reached(index as int),
            before.state@.len() == g.span + 1,
            before.price@.len() == g.span + 1,
            state == before.state@[index as int],
            start <= length,
            start == 4 || start == reach.0,
            run_end == reach.1,
            distance == reach.2,
            start >= 4 && start >= reach.0,
            whole ==> going && left == steps_left,
            !whole && going ==> left + price_steps(
                state@,
                start as int,
                run_end as int,
                distance as int,
            ) == steps_left + price_steps(
                state@,
                length as int,
                run_end as int,
                distance as int,
            ),
            !going ==> left == 0 && price_steps(
                state@,
                start as int,
                run_end as int,
                distance as int,
            ) > steps_left,
            length > run_end && start <= run_end && going ==> (match_price(
                *prices,
                state@,
                run_end as int,
                distance as int,
            ) matches Some(c) ==> nodes.price@[index + run_end] <= before.price@[index as int] + c),
        decreases
                if length <= run_end {
                    run_end + 1 - length
                } else {
                    0
                },
            going as int,
    {
        if !whole && left == 0 {
            going = false;
            assert(price_steps(state@, length as int, run_end as int, distance as int) >= 1);
        } else {
            if !whole {
                left = left - 1;
            }
            let same: u32 = same_price_run_end(&state, length, distance);
            let stop: u32 = if same < run_end {
                same
            } else {
                run_end
            };
            let cost: Option<u32> = price_of_match(prices, &state, stop, distance);
            if let Some(cost) = cost {
                let mut next: EncoderMatchState = state;
                next.remember(stop, distance);
                proof {
                    assert(valid_match(
                        g.full,
                        g.base + index,
                        distance as int,
                        stop as int,
                        g.window,
                    ));
                    assert(nodes.state@[index as int] == before.state@[index as int]);
                }
                let ghost earlier = *nodes;
                nodes.relax(index, (stop, distance), cost, next, Ghost(g));
                assert(nodes.improves(before, index as int));
            }
            length = stop + 1;
        }
    }
    left
}

/// How many prices a run of lengths at one distance takes: one for each form
/// that its matches are written in.
pub open spec fn price_steps(g: Memory, from: int, to: int, distance: int) -> nat
    decreases to - from + 1,
    when from >= 2
    via price_steps_advances
{
    if from > to {
        0
    } else {
        1 + price_steps(g, clipped(same_form_end(g, from, distance), to) + 1, to, distance)
    }
}

#[via_fn]
proof fn price_steps_advances(g: Memory, from: int, to: int, distance: int) {
    if from <= to {
        lemma_same_form_advances(g, from, distance);
    }
}

proof fn lemma_same_form_advances(g: Memory, length: int, distance: int)
    ensures
        length <= same_form_end(g, length, distance),
    decreases MAX_MATCH - length,
{
    if length < MAX_MATCH && match_form(g, length, distance) is Some && match_form(
        g,
        length + 1,
        distance,
    ) == match_form(g, length, distance) {
        lemma_same_form_advances(g, length + 1, distance);
    }
}

/// How many prices a run takes, from the shortest length on that is worth it.
pub open spec fn run_steps(g: Memory, r: (u32, u32, u32)) -> nat {
    price_steps(
        g,
        if r.0 < 4 {
            4
        } else {
            r.0 as int
        },
        r.1 as int,
        r.2 as int,
    )
}

/// How many prices the runs from the `k`th on take, without the `skip`th.
pub open spec fn steps_from(g: Memory, reaches: Seq<(u32, u32, u32)>, skip: int, k: int) -> nat
    decreases reaches.len() - k,
{
    if k >= reaches.len() {
        0
    } else {
        steps_from(g, reaches, skip, k + 1) + if k == skip {
            0
        } else {
            run_steps(g, reaches[k])
        }
    }
}

/// Which of the first `k` runs is the first of the longest.
pub open spec fn longest_of(reaches: Seq<(u32, u32, u32)>, k: int) -> int
    decreases k,
{
    if k <= 1 {
        0
    } else {
        let b = longest_of(reaches, k - 1);
        if reaches[k - 1].1 > reaches[b].1 {
            k - 1
        } else {
            b
        }
    }
}

/// The run is priced to its end: it is the longest, or the prices that it and
/// the runs behind it take are within what a position may spend.
pub open spec fn run_priced(g: Memory, reaches: Seq<(u32, u32, u32)>, k: int) -> bool {
    let skip = longest_of(reaches, reaches.len() as int);
    reaches[k].1 >= 4 && (k == skip || steps_from(g, reaches, skip, k)
        <= MAX_PARSE_STEPS_PER_POSITION)
}

/// No run that is priced to its end leads from `i` anywhere cheaper.
pub open spec fn runs_cheapest(
    price: Seq<int>,
    i: int,
    prices: Option<TokenPrices>,
    g: Memory,
    reaches: Seq<(u32, u32, u32)>,
) -> bool {
    forall|k: int|
        0 <= k < reaches.len() && run_priced(g, reaches, k) ==> (match_price(
            prices,
            g,
            (#[trigger] reaches[k]).1 as int,
            reaches[k].2 as int,
        ) matches Some(c) ==> price[i + reaches[k].1] <= price[i] + c)
}

/// How many bytes at `p`, at most `most`, are those `distance` before them.
pub open spec fn common_length(full: Seq<u8>, p: int, distance: int, most: int) -> int
    decreases most,
{
    if most <= 0 {
        0
    } else {
        let l = common_length(full, p, distance, most - 1);
        if l == most - 1 && full[p + l] == full[p + l - distance] {
            most
        } else {
            l
        }
    }
}

proof fn lemma_common_length(full: Seq<u8>, p: int, distance: int, most: int, l: int)
    requires
        0 <= l <= most,
        forall|i: int| p <= i < p + l ==> #[trigger] full[i] == full[i - distance],
        l < most ==> full[p + l] != full[p + l - distance],
    ensures
        common_length(full, p, distance, most) == l,
    decreases most,
{
    if most > 0 {
        if l < most {
            lemma_common_length(full, p, distance, most - 1, l);
        } else {
            lemma_common_length(full, p, distance, most - 1, l - 1);
            assert(full[p + (l - 1)] == full[p + (l - 1) - distance]);
        }
    }
}

/// The run at a remembered distance, where at least four bytes match.
pub open spec fn repeat_run(
    g: Memory,
    c: int,
    full: Seq<u8>,
    p: int,
    far: int,
    room: int,
) -> Seq<(u32, u32, u32)> {
    let d = g.reps[c] as int;
    let l = common_length(full, p, d, room);
    if 0 < d <= far && l >= 4 {
        seq![(4u32, l as u32, d as u32)]
    } else {
        Seq::empty()
    }
}

/// The runs that the matches reported from `lo` to `hi` add: each that is
/// longer than all before it owns the lengths that they lack.
pub open spec fn reported_runs(runs: Seq<(u32, u32)>, lo: int, hi: int, room: int) -> (
    Seq<(u32, u32, u32)>,
    int,
)
    decreases hi - lo,
{
    if hi <= lo {
        (Seq::empty(), 0)
    } else {
        let (rest, longest) = reported_runs(runs, lo, hi - 1, room);
        let l = clipped(runs[hi - 1].0 as int, room);
        if l > longest {
            (rest.push(((longest + 1) as u32, l as u32, runs[hi - 1].1)), l)
        } else {
            (rest, longest)
        }
    }
}

/// The runs of lengths worth pricing at position `i` of a block, `p` in all:
/// those of the first two remembered distances, then those reported.
pub open spec fn reaches_at(
    g: Memory,
    full: Seq<u8>,
    p: int,
    far: int,
    room: int,
    matches: BlockMatches,
    i: int,
) -> Seq<(u32, u32, u32)> {
    repeat_run(g, 0, full, p, far, room) + repeat_run(g, 1, full, p, far, room) + reported_runs(
        matches.runs@,
        matches.starts@[i] as int,
        matches.starts@[i + 1] as int,
        room,
    ).0
}

/// The runs of lengths worth pricing at a position: those of the first two
/// remembered distances, and those that the collector found.
fn collect_reaches(
    frame: &[u8],
    pos: usize,
    state: &EncoderMatchState,
    matches: &BlockMatches,
    index: usize,
    max_distance: usize,
    max_length: usize,
    Ghost(g): Ghost<ParseGround>,
) -> (reaches: Vec<(u32, u32, u32)>)
    requires
        is_suffix(frame@, g.full),
        g.base + index == g.full.len() - frame@.len() + pos,
        index < g.span,
        g.span <= MAX_BLOCK_SIZE,
        pos + max_length <= frame@.len(),
        max_length <= MAX_MATCH,
        max_distance <= pos,
        max_distance <= g.window,
        block_matches_ok(*matches, g.full, g.base, g.span, g.window),
    ensures
        reaches@ == reaches_at(
            state@,
            g.full,
            g.base + index,
            max_distance as int,
            max_length as int,
            *matches,
            index as int,
        ),
        forall|k: int|
            0 <= k < reaches@.len() ==> reach_ok(
                g.full,
                g.base + index,
                #[trigger] reaches@[k],
                max_length as int,
                g.window,
            ) && reaches@[k].0 <= reaches@[k].1,
        forall|j: int|
            matches.starts@[index as int] <= j < matches.starts@[index + 1] ==> reaches_past(
                reaches@,
                clipped((#[trigger] matches.runs@[j]).0 as int, max_length as int),
            ),
{
    let mut reaches: Vec<(u32, u32, u32)> = Vec::new();
    let ghost delta = g.full.len() - frame@.len();
    let ghost p = delta + pos;
    let ghost first_run = repeat_run(
        state@,
        0,
        g.full,
        p,
        max_distance as int,
        max_length as int,
    );
    let ghost second_run = repeat_run(
        state@,
        1,
        g.full,
        p,
        max_distance as int,
        max_length as int,
    );
    let mut c: usize = 0;
    while c < 2
        invariant
            c <= 2,
            p == delta + pos,
            p == g.base + index,
            pos + max_length <= frame@.len(),
            is_suffix(frame@, g.full),
            delta == g.full.len() - frame@.len(),
            max_distance <= pos,
            max_distance <= g.window,
            max_length <= MAX_MATCH,
            reaches@ == if c == 0 {
                Seq::empty()
            } else if c == 1 {
                first_run
            } else {
                first_run + second_run
            },
            first_run == repeat_run(
                state@,
                0,
                g.full,
                p,
                max_distance as int,
                max_length as int,
            ),
            second_run == repeat_run(
                state@,
                1,
                g.full,
                p,
                max_distance as int,
                max_length as int,
            ),
            forall|k: int|
                0 <= k < reaches@.len() ==> reach_ok(
                    g.full,
                    p,
                    #[trigger] reaches@[k],
                    max_length as int,
                    g.window,
                ) && reaches@[k].0 <= reaches@[k].1,
        decreases 2 - c,
    {
        let ghost had = reaches@;
        let repeat: u32 = state.reps[c];
        assert(state@.reps[c as int] == repeat);
        if repeat != 0 && repeat as usize <= max_distance {
            let length: usize = match_length_at(frame, pos, repeat as usize, max_length);
            proof {
                assert forall|i: int| 0 <= i < frame@.len() implies #[trigger] frame@[i]
                    == g.full[delta + i] by {
                    assert(g.full.subrange(delta, g.full.len() as int)[i] == frame@[i]);
                }
                assert forall|i: int| p <= i < p + length implies #[trigger] g.full[i]
                    == g.full[i - repeat] by {
                    assert(frame@[i - delta] == frame@[i - delta - repeat]);
                }
                if length < max_length {
                    assert(frame@[pos + length] != frame@[pos + length - repeat]);
                }
                lemma_common_length(
                    g.full,
                    p,
                    repeat as int,
                    max_length as int,
                    length as int,
                );
            }
            if length >= 4 {
                proof {
                    assert(valid_match(
                        frame@,
                        pos as int,
                        repeat as int,
                        length as int,
                        g.window,
                    ));
                    lemma_valid_match_extend(
                        frame@,
                        g.full,
                        pos as int,
                        repeat as int,
                        length as int,
                        g.window,
                    );
                }
                reaches.push((4, length as u32, repeat));
            }
        }
        proof {
            let own = if c == 0 {
                first_run
            } else {
                second_run
            };
            assert(reaches@ =~= had + own);
        }
        c = c + 1;
    }
    let ghost repeats = reaches@;
    // Each report that improves on the longest so far owns one run of lengths.
    let mut longest: u32 = 0;
    let mut r: usize = matches.starts[index];
    let stop: usize = matches.starts[index + 1];
    let ghost first = r;
    assert(reaches@ =~= repeats + Seq::<(u32, u32, u32)>::empty());
    assert(matches.starts@[index + 1] <= matches.runs@.len());
    assert(matches.starts@[index as int] <= matches.starts@[index + 1]);
    while r < stop
        invariant
            index < g.span,
            p == g.base + index,
            first == matches.starts@[index as int],
            first <= r <= stop,
            stop == matches.starts@[index + 1],
            stop <= matches.runs@.len(),
            block_matches_ok(*matches, g.full, g.base, g.span, g.window),
            max_length <= MAX_MATCH,
            longest <= max_length,
            ({
                let own = reported_runs(matches.runs@, first as int, r as int, max_length as int);
                reaches@ == repeats + own.0 && longest == own.1
            }),
            reaches_past(reaches@, longest as int) || longest == 0,
            forall|k: int|
                0 <= k < reaches@.len() ==> reach_ok(
                    g.full,
                    p,
                    #[trigger] reaches@[k],
                    max_length as int,
                    g.window,
                ) && reaches@[k].0 <= reaches@[k].1,
            forall|j: int|
                first <= j < r ==> clipped(
                    (#[trigger] matches.runs@[j]).0 as int,
                    max_length as int,
                ) <= longest,
        decreases stop - r,
    {
        let (run_length, distance) = matches.runs[r];
        proof {
            let s = matches.starts@[index as int];
            assert(run_ok(g.full, p, matches.runs@[r as int], g.window));
        }
        let length: u32 = if (run_length as usize) < max_length {
            run_length
        } else {
            max_length as u32
        };
        let ghost own = reported_runs(matches.runs@, first as int, r as int, max_length as int);
        assert(length == clipped(matches.runs@[r as int].0 as int, max_length as int));
        if length > longest {
            assert(valid_match(g.full, p, distance as int, length as int, g.window));
            let ghost had = reaches@;
            reaches.push((longest + 1, length, distance));
            longest = length;
            proof {
                assert(reaches@[had.len() as int].1 == longest);
                assert(reaches_past(reaches@, longest as int));
                assert(reaches@ =~= repeats + own.0.push(reaches@.last()));
            }
        }
        r = r + 1;
    }
    proof {
        assert forall|j: int|
            matches.starts@[index as int] <= j < matches.starts@[index + 1] implies reaches_past(
            reaches@,
            clipped((#[trigger] matches.runs@[j]).0 as int, max_length as int),
        ) by {
            let c = clipped(matches.runs@[j].0 as int, max_length as int);
            assert(c <= longest);
            if longest > 0 {
                let k = choose|k: int|
                    0 <= k < reaches@.len() && (#[trigger] reaches@[k]).1 >= longest;
                assert(reaches@[k].1 >= c);
            }
        }
    }
    reaches
}

/// Every run worth pricing has a length.
proof fn lemma_reaches_long(
    g: Memory,
    full: Seq<u8>,
    p: int,
    far: int,
    room: int,
    matches: BlockMatches,
    i: int,
    q: int,
)
    requires
        room <= MAX_MATCH,
        0 <= q < reaches_at(g, full, p, far, room, matches, i).len(),
    ensures
        reaches_at(g, full, p, far, room, matches, i)[q].1 >= 1,
{
    let a = repeat_run(g, 0, full, p, far, room);
    let b = repeat_run(g, 1, full, p, far, room);
    let lo = matches.starts@[i] as int;
    let hi = matches.starts@[i + 1] as int;
    let c = reported_runs(matches.runs@, lo, hi, room).0;
    lemma_common_most(full, p, g.reps[0] as int, room);
    lemma_common_most(full, p, g.reps[1] as int, room);
    if q < a.len() {
        assert((a + b + c)[q] == a[q]);
    } else if q < a.len() + b.len() {
        assert((a + b + c)[q] == b[q - a.len()]);
    } else {
        lemma_reported_long(matches.runs@, lo, hi, room);
        assert((a + b + c)[q] == c[q - a.len() - b.len()]);
    }
}

proof fn lemma_common_most(full: Seq<u8>, p: int, distance: int, most: int)
    ensures
        common_length(full, p, distance, most) <= if most <= 0 {
            0
        } else {
            most
        },
    decreases most,
{
    if most > 0 {
        lemma_common_most(full, p, distance, most - 1);
    }
}

proof fn lemma_reported_long(runs: Seq<(u32, u32)>, lo: int, hi: int, room: int)
    requires
        room <= MAX_MATCH,
    ensures
        reported_runs(runs, lo, hi, room).1 >= 0,
        forall|q: int|
            0 <= q < reported_runs(runs, lo, hi, room).0.len() ==> (#[trigger] reported_runs(
                runs,
                lo,
                hi,
                room,
            ).0[q]).1 >= 1,
    decreases hi - lo,
{
    if hi > lo {
        lemma_reported_long(runs, lo, hi - 1, room);
        let (rest, longest) = reported_runs(runs, lo, hi - 1, room);
        let own = reported_runs(runs, lo, hi, room).0;
        assert forall|q: int| 0 <= q < own.len() implies (#[trigger] own[q]).1 >= 1 by {
            if q < rest.len() {
                assert(own[q] == rest[q]);
            }
        }
    }
}

/// Some run reaches `length`, or that is nothing.
pub open spec fn reaches_past(reaches: Seq<(u32, u32, u32)>, length: int) -> bool {
    length <= 0 || exists|k: int| 0 <= k < reaches.len() && (#[trigger] reaches[k]).1 >= length
}

/// A length, at most `most`.
pub open spec fn clipped(length: int, most: int) -> int {
    if length < most {
        length
    } else {
        most
    }
}

/// The prices of a parse: of each position of the block and of its end, the
/// cheapest way found there, the memory it leaves, whether the parse looked
/// for ways on, and the longest match it tried.
pub struct PriceTable {
    pub price: Seq<int>,
    pub memory: Seq<Memory>,
    pub visited: Seq<bool>,
    pub longest: Seq<(int, int)>,
}

/// From a visited position no literal leads anywhere cheaper than the table
/// has it; where there is something behind the position and room for a match,
/// no run that is priced to its end does, at a remembered distance or at one
/// that the collector reported, and the longest is as long as any of these.
pub open spec fn cheapest_from(
    table: PriceTable,
    i: int,
    prices: Option<TokenPrices>,
    full: Seq<u8>,
    base: int,
    span: int,
    max_match: int,
    matches: BlockMatches,
    low: int,
    window: int,
) -> bool {
    let (length, distance) = table.longest[i];
    let room = clipped(span - i, max_match);
    let far = clipped(base + i - low, window);
    let reaches = reaches_at(table.memory[i], full, base + i, far, room, matches, i);
    let looked = far > 0 && room >= 4;
    &&& table.price[i + 1] <= table.price[i] + literal_price(prices, full[base + i])
    &&& 0 <= length <= room
    &&& length >= 4 ==> (match_price(prices, table.memory[i], length, distance) matches Some(c)
        ==> table.price[i + length] <= table.price[i] + c)
    &&& looked ==> runs_cheapest(table.price, i, prices, table.memory[i], reaches)
    &&& looked ==> forall|k: int|
        0 <= k < reaches.len() ==> (#[trigger] reaches[k]).1 <= length
    &&& looked ==> forall|j: int|
        matches.starts@[i] <= j < matches.starts@[i + 1] ==> clipped(
            (#[trigger] matches.runs@[j]).0 as int,
            room,
        ) <= length
}

impl PriceTable {
    /// The table is one of a block: it starts at nothing, and every visited
    /// position is as cheap as it can be. A position that was not visited
    /// lies under a match of a visited one that is long enough to be taken
    /// without a look at what it covers.
    pub open spec fn is_for(
        self,
        prices: Option<TokenPrices>,
        full: Seq<u8>,
        base: int,
        span: int,
        max_match: int,
        matches: BlockMatches,
        initial: Memory,
        low: int,
        window: int,
    ) -> bool {
        &&& self.price.len() == span + 1
        &&& self.memory.len() == span + 1
        &&& self.visited.len() == span
        &&& self.longest.len() == span
        &&& self.price[0] == 0
        &&& self.memory[0] == initial
        &&& forall|i: int|
            0 <= i < span && #[trigger] self.visited[i] ==> cheapest_from(
                self,
                i,
                prices,
                full,
                base,
                span,
                max_match,
                matches,
                low,
                window,
            )
        &&& forall|i: int|
            0 <= i < span && !(#[trigger] self.visited[i]) ==> exists|j: int|
                0 <= j < i && #[trigger] self.visited[j] && i < j + self.longest[j].0
                    && self.longest[j].0 >= NICE_MATCH_LENGTH
    }
}

/// Price every run of lengths worth it at a position, the longest to its end.
/// Returns the longest length, and its distance.
#[verifier::rlimit(60)]
#[verifier::spinoff_prover]
fn price_position(
    nodes: &mut ParseNodes,
    frame: &[u8],
    pos: usize,
    prices: &Option<TokenPrices>,
    matches: &BlockMatches,
    index: usize,
    max_distance: usize,
    max_length: usize,
    Ghost(g): Ghost<ParseGround>,
) -> (r: (u32, Ghost<int>))
    requires
        old(nodes).wf(g, index + 1),
        old(nodes).reached(index as int),
        g.prices == *prices,
        match *prices {
            Some(p) => p.wf(),
            None => true,
        },
        is_suffix(frame@, g.full),
        g.base + index == g.full.len() - frame@.len() + pos,
        index < g.span,
        g.span <= MAX_BLOCK_SIZE,
        pos + max_length <= frame@.len(),
        max_length <= g.span - index,
        max_length <= g.max_match,
        g.max_match <= MAX_MATCH,
        max_distance <= pos,
        max_distance <= g.window,
        block_matches_ok(*matches, g.full, g.base, g.span, g.window),
    ensures
        final(nodes).wf(g, index + 1),
        final(nodes).improves(*old(nodes), index as int),
        r.0 <= max_length,
        ({
            let memory = old(nodes).state@[index as int]@;
            let reaches = reaches_at(
                memory,
                g.full,
                g.base + index,
                max_distance as int,
                max_length as int,
                *matches,
                index as int,
            );
            &&& runs_cheapest(final(nodes).prices(), index as int, *prices, memory, reaches)
            &&& forall|k: int| 0 <= k < reaches.len() ==> (#[trigger] reaches[k]).1 <= r.0
            &&& r.0 >= 4 ==> (match_price(*prices, memory, r.0 as int, r.1@) matches Some(c)
                ==> final(nodes).price@[index + r.0] <= old(nodes).price@[index as int] + c)
        }),
        forall|j: int|
            matches.starts@[index as int] <= j < matches.starts@[index + 1] ==> clipped(
                (#[trigger] matches.runs@[j]).0 as int,
                max_length as int,
            ) <= r.0,
{
    let state: EncoderMatchState = nodes.state[index];
    let ghost mut best: (int, int) = (0, 0);
    let reaches = collect_reaches(
        frame,
        pos,
        &state,
        matches,
        index,
        max_distance,
        max_length,
        Ghost(g),
    );
    // The longest run is always priced to its end: its reach feeds
    // the skip below. The remaining runs share a fixed number of
    // steps.
    let m: usize = reaches.len();
    let ghost memory = state@;
    assert forall|q: int| 0 <= q < m implies (#[trigger] reaches@[q]).1 >= 1 by {
        lemma_reaches_long(
            memory,
            g.full,
            g.base + index,
            max_distance as int,
            max_length as int,
            *matches,
            index as int,
            q,
        );
    }
    let mut longest_idx: usize = 0;
    let mut longest_reach: u32 = 0;
    let mut k: usize = 0;
    while k < m
        invariant
            k <= m,
            m == reaches@.len(),
            longest_reach > 0 ==> longest_idx < m && reaches@[longest_idx as int].1
                == longest_reach,
            k == 0 ==> longest_reach == 0 && longest_idx == 0,
            k > 0 ==> longest_reach > 0,
            longest_idx == longest_of(reaches@, k as int),
            forall|q: int|
                0 <= q < m ==> (#[trigger] reaches@[q]).1 >= 1,
            forall|q: int| 0 <= q < k ==> (#[trigger] reaches@[q]).1 <= longest_reach,
        decreases m - k,
    {
        let (_, run_end, _) = reaches[k];
        if run_end > longest_reach {
            longest_reach = run_end;
            longest_idx = k;
        }
        k = k + 1;
    }
    let mut steps_left: usize = MAX_PARSE_STEPS_PER_POSITION;
    let mut i: usize = m;
    let ghost priced = *nodes;
    assert(steps_from(memory, reaches@, longest_idx as int, m as int) == 0);
    while i > 0
        invariant
            i <= m,
            m == reaches@.len(),
            index < g.span,
            g.span <= MAX_BLOCK_SIZE,
            g.prices == *prices,
            max_length <= g.span - index,
            match *prices {
                Some(p) => p.wf(),
                None => true,
            },
            nodes.wf(g, index + 1),
            nodes.reached(index as int),
            nodes.improves(priced, index as int),
            priced.price@.len() == g.span + 1,
            priced.state@.len() == g.span + 1,
            forall|k: int|
                0 <= k < reaches@.len() ==> reach_ok(
                    g.full,
                    g.base + index,
                    #[trigger] reaches@[k],
                    max_length as int,
                    g.window,
                ) && reaches@[k].0 <= reaches@[k].1,
            memory == priced.state@[index as int]@,
            max_length <= g.max_match,
            g.max_match <= MAX_MATCH,
            longest_idx == longest_of(reaches@, m as int),
            ({
                let spent = steps_from(memory, reaches@, longest_idx as int, i as int);
                steps_left == if spent <= MAX_PARSE_STEPS_PER_POSITION {
                    MAX_PARSE_STEPS_PER_POSITION - spent
                } else {
                    0
                }
            }),
            forall|k: int|
                i <= k < m && run_priced(memory, reaches@, k) ==> (match_price(
                    *prices,
                    memory,
                    (#[trigger] reaches@[k]).1 as int,
                    reaches@[k].2 as int,
                ) matches Some(c) ==> nodes.price@[index + reaches@[k].1]
                    <= priced.price@[index as int] + c),
        decreases i,
    {
        i = i - 1;
        let whole = i == longest_idx;
        let reach = reaches[i];
        assert(reach_ok(
            g.full,
            g.base + index,
            reaches@[i as int],
            max_length as int,
            g.window,
        ));
        let ghost earlier = *nodes;
        let left = price_run(
            nodes,
            prices,
            index,
            reach,
            whole,
            steps_left,
            Ghost(g),
            Ghost(max_length as int),
        );
        proof {
            assert(nodes.improves(priced, index as int));
            assert(nodes.price@[index as int] == earlier.price@[index as int]);
            assert(earlier.state@[index as int] == priced.state@[index as int]);
            assert forall|k: int|
                i <= k < m && run_priced(memory, reaches@, k) implies (match_price(
                *prices,
                memory,
                (#[trigger] reaches@[k]).1 as int,
                reaches@[k].2 as int,
            ) matches Some(c) ==> nodes.price@[index + reaches@[k].1]
                <= priced.price@[index as int] + c) by {
                assert(reach_ok(
                    g.full,
                    g.base + index,
                    reaches@[k],
                    max_length as int,
                    g.window,
                ));
                let t = index + reaches@[k].1;
                assert(nodes.price@[t] <= earlier.price@[t]);
            }
        }
        steps_left = left;
    }
    proof {
        if longest_reach > 0 {
            best = (longest_reach as int, reaches@[longest_idx as int].2 as int);
            assert(reach_ok(
                g.full,
                g.base + index,
                reaches@[longest_idx as int],
                max_length as int,
                g.window,
            ));
            if longest_reach >= 4 {
                assert(run_priced(memory, reaches@, longest_idx as int));
                assert(reaches@[longest_idx as int].1 == longest_reach);
            }
        }
        assert(runs_cheapest(nodes.prices(), index as int, *prices, memory, reaches@)) by {
            assert forall|k: int|
                0 <= k < reaches@.len() && run_priced(memory, reaches@, k) implies (
            match_price(
                *prices,
                memory,
                (#[trigger] reaches@[k]).1 as int,
                reaches@[k].2 as int,
            ) matches Some(c) ==> nodes.prices()[index + reaches@[k].1]
                <= nodes.prices()[index as int] + c) by {
                assert(reach_ok(
                    g.full,
                    g.base + index,
                    reaches@[k],
                    max_length as int,
                    g.window,
                ));
            }
        }
        assert forall|j: int|
            matches.starts@[index as int] <= j < matches.starts@[index + 1] implies
            clipped((#[trigger] matches.runs@[j]).0 as int, max_length as int)
            <= best.0 by {
            let c = clipped(matches.runs@[j].0 as int, max_length as int);
            assert(reaches_past(reaches@, c));
            if c > 0 {
                let k = choose|k: int|
                    0 <= k < reaches@.len() && (#[trigger] reaches@[k]).1 >= c;
                assert(reaches@[k].1 <= longest_reach);
            }
        }
    }
    (longest_reach, Ghost(best.1))
}

/// Price ways through the block `[start, end)` and keep the cheapest. `prices`
/// is `None` for the first pass, which guesses. `initial` seeds the distance
/// memory at the block start. Returns the chosen tokens from the last to the
/// first: what they cost is what the table of prices says of the block's end.
#[verifier::rlimit(60)]
#[verifier::spinoff_prover]
fn optimal_parse_tokens(
    frame: &[u8],
    start: usize,
    end: usize,
    max_match: usize,
    window: usize,
    prices: &Option<TokenPrices>,
    matches: &BlockMatches,
    initial: EncoderMatchState,
    Ghost(full): Ghost<Seq<u8>>,
) -> (tokens: Vec<(u32, u32)>)
    requires
        start <= end <= frame@.len(),
        end - start <= MAX_BLOCK_SIZE,
        max_match <= MAX_MATCH,
        is_suffix(frame@, full),
        block_matches_ok(
            *matches,
            full,
            full.len() - frame@.len() + start,
            end - start,
            window as int,
        ),
        match *prices {
            Some(p) => p.wf(),
            None => true,
        },
    ensures
        tokens_ok(
            full,
            tokens@,
            full.len() - frame@.len() + end,
            max_match as int,
            window as int,
        ),
        tokens_start(tokens@, full.len() - frame@.len() + end) == full.len() - frame@.len()
            + start,
        exists|table: PriceTable| #[trigger]
            table.is_for(
                *prices,
                full,
                full.len() - frame@.len() + start,
                end - start,
                max_match as int,
                *matches,
                initial@,
                full.len() - frame@.len(),
                window as int,
            ) && tokens_price(*prices, initial@, tokens@) == Some(table.price[end - start]),
{
    let ghost delta = full.len() - frame@.len();
    let span: usize = end - start;
    let ghost g = ParseGround {
        prices: *prices,
        full,
        base: delta + start,
        window: window as int,
        span: span as int,
        max_match: max_match as int,
        initial: initial@,
        low: delta,
    };
    let mut nodes = ParseNodes {
        price: vec![u32::MAX; span + 1],
        length: vec![0u32; span + 1],
        distance: vec![0u32; span + 1],
        state: vec![initial; span + 1],
    };
    nodes.price.set(0, 0);
    let mut committed_through: usize = 0;
    let mut index: usize = 0;
    let ghost mut visited: Seq<bool> = Seq::empty();
    let ghost mut longest: Seq<(int, int)> = Seq::empty();
    while index < span
        invariant
            index <= span,
            span == end - start,
            span <= MAX_BLOCK_SIZE,
            start <= end <= frame@.len(),
            max_match <= MAX_MATCH,
            is_suffix(frame@, full),
            delta == full.len() - frame@.len(),
            g == (ParseGround {
                prices: *prices,
                full,
                base: delta + start,
                window: window as int,
                span: span as int,
                max_match: max_match as int,
                initial: initial@,
                low: delta,
            }),
            block_matches_ok(*matches, full, delta + start, span as int, window as int),
            match *prices {
                Some(p) => p.wf(),
                None => true,
            },
            nodes.wf(g, index as int),
            committed_through <= span,
            nodes.reached(
                if index < committed_through {
                    committed_through as int
                } else {
                    index as int
                },
            ),
            visited.len() == index,
            longest.len() == index,
            forall|i: int|
                0 <= i < index && #[trigger] visited[i] ==> nodes.settled(
                    g,
                    i,
                    longest[i],
                    max_match as int,
                    *matches,
                ),
            forall|i: int|
                0 <= i < index && !(#[trigger] visited[i]) ==> exists|j: int|
                    0 <= j < i && #[trigger] visited[j] && i < j + longest[j].0 && longest[j].0
                        >= NICE_MATCH_LENGTH,
            index < committed_through ==> exists|j: int|
                0 <= j < index && #[trigger] visited[j] && committed_through == j + longest[j].0
                    && longest[j].0 >= NICE_MATCH_LENGTH,
        decreases span - index,
    {
        let pos: usize = start + index;
        let ghost mut best: (int, int) = (0, 0);
        let ghost seen = visited;
        let ghost tried = longest;
        let ghost was_committed = committed_through;
        if index >= committed_through {
            proof {
                assert(full.subrange(delta, full.len() as int)[pos as int] == frame@[pos as int]);
            }
            let ghost entered = nodes;
            let byte: u8 = frame[pos];
            let literal_cost: u32 = match prices {
                Some(p) => p.literal(byte),
                None => ESTIMATED_LITERAL_COST,
            };
            let state: EncoderMatchState = nodes.state[index];
            proof {
                nodes.lemma_later(g, index as int, index + 1);
            }
            // A literal emits no distance, so it leaves the remembered
            // distances exactly as it found them.
            nodes.relax(index, (0, byte as u32), literal_cost, state, Ghost(g));
            let max_distance: usize = if pos < window { pos } else { window };
            let room: usize = end - pos;
            let max_length: usize = if room < max_match { room } else { max_match };
            let ghost mut looked = false;
            if max_distance > 0 && max_length >= 4 {
                let (longest_reach, Ghost(distance)) = price_position(
                    &mut nodes,
                    frame,
                    pos,
                    prices,
                    matches,
                    index,
                    max_distance,
                    max_length,
                    Ghost(g),
                );
                proof {
                    looked = true;
                    best = (longest_reach as int, distance);
                }
                // A match long enough to commit to is stepped over, where the
                // parse can actually reach its end.
                if longest_reach as usize >= NICE_MATCH_LENGTH {
                    let target: usize = index + longest_reach as usize;
                    if nodes.price[target] != u32::MAX {
                        committed_through = target;
                    }
                }
            }
            proof {
                assert(nodes.improves(entered, index as int));
                visited = visited.push(true);
                longest = longest.push(best);
                assert(nodes.settled(g, index as int, best, max_match as int, *matches)) by {
                    assert(nodes.price@[index as int] == entered.price@[index as int]);
                    assert(nodes.state@[index as int] == entered.state@[index as int]);
                    if !looked && max_length >= 4 {
                        assert(max_distance == 0);
                    }
                }
                assert forall|i: int| 0 <= i < index + 1 && #[trigger] visited[i] implies
                    nodes.settled(g, i, longest[i], max_match as int, *matches) by {
                    if i < index {
                        assert(seen[i]);
                        assert(longest[i] == tried[i]);
                        assert(entered.settled(g, i, tried[i], max_match as int, *matches));
                        nodes.lemma_still_settled(
                            entered,
                            g,
                            index as int,
                            i,
                            tried[i],
                            max_match as int,
                            *matches,
                        );
                    }
                }
            }
        } else {
            proof {
                visited = visited.push(false);
                longest = longest.push(best);
                nodes.lemma_later(g, index as int, index + 1);
                assert forall|i: int| 0 <= i < index + 1 && #[trigger] visited[i] implies
                    nodes.settled(g, i, longest[i], max_match as int, *matches) by {
                    assert(seen[i]);
                    assert(longest[i] == tried[i]);
                }
            }
        }
        proof {
            assert forall|i: int| 0 <= i < index + 1 && !(#[trigger] visited[i]) implies exists|
                j: int,
            |
                0 <= j < i && #[trigger] visited[j] && i < j + longest[j].0 && longest[j].0
                    >= NICE_MATCH_LENGTH by {
                if i < index {
                    assert(!seen[i]);
                    let j = choose|j: int|
                        0 <= j < i && #[trigger] seen[j] && i < j + tried[j].0 && tried[j].0
                            >= NICE_MATCH_LENGTH;
                    assert(visited[j] && longest[j] == tried[j]);
                } else {
                    assert(index < was_committed);
                    let j = choose|j: int|
                        0 <= j < index && #[trigger] seen[j] && was_committed == j + tried[j].0
                            && tried[j].0 >= NICE_MATCH_LENGTH;
                    assert(visited[j] && longest[j] == tried[j]);
                }
            }
            if index + 1 < committed_through {
                if committed_through == was_committed && index < was_committed {
                    let j = choose|j: int|
                        0 <= j < index && #[trigger] seen[j] && was_committed == j + tried[j].0
                            && tried[j].0 >= NICE_MATCH_LENGTH;
                    assert(visited[j] && longest[j] == tried[j]);
                } else {
                    assert(visited[index as int]);
                    assert(longest[index as int] == best);
                }
            }
        }
        index = index + 1;
    }
    let mut tokens: Vec<(u32, u32)> = Vec::new();
    let mut at: usize = span;
    while at > 0
        invariant
            at <= span,
            span == end - start,
            delta == full.len() - frame@.len(),
            g.full == full,
            g.base == delta + start,
            g.window == window,
            g.max_match == max_match,
            g.span == span,
            g.prices == *prices,
            g.initial == initial@,
            g.low == delta,
            nodes.wf(g, span as int),
            nodes.reached(at as int),
            nodes.reached(span as int),
            tokens_ok(full, tokens@, delta + end, max_match as int, window as int),
            tokens_start(tokens@, delta + end) == delta + start + at,
            tokens_price(*prices, nodes.state@[at as int]@, tokens@) == Some(
                nodes.price@[span as int] - nodes.price@[at as int],
            ),
        decreases at,
    {
        let token: (u32, u32) = (nodes.length[at], nodes.distance[at]);
        proof {
            assert(nodes.node_ok(g, span as int, at as int));
            assert(nodes.token(at as int) == token);
            lemma_tokens_push(
                full,
                tokens@,
                token,
                delta + end,
                max_match as int,
                window as int,
            );
            assert(tokens@.push(token).drop_last() =~= tokens@);
            assert(tokens@.push(token).last() == token);
        }
        tokens.push(token);
        at = if token.0 == 0 {
            at - 1
        } else {
            at - token.0 as usize
        };
    }
    proof {
        let table = PriceTable {
            price: nodes.prices(),
            memory: Seq::new((span + 1) as nat, |t: int| nodes.state@[t]@),
            visited,
            longest,
        };
        assert(table.is_for(
            *prices,
            full,
            delta + start,
            span as int,
            max_match as int,
            *matches,
            initial@,
            delta,
            window as int,
        )) by {
            assert forall|i: int|
                0 <= i < span && #[trigger] table.visited[i] implies cheapest_from(
                table,
                i,
                *prices,
                full,
                delta + start,
                span as int,
                max_match as int,
                *matches,
                delta,
                window as int,
            ) by {
                assert(visited[i]);
                assert(nodes.settled(g, i, longest[i], max_match as int, *matches));
                assert(table.price[i] == nodes.price@[i]);
                assert(table.price[i + 1] == nodes.price@[i + 1]);
                assert(table.memory[i] == nodes.state@[i]@);
                assert(table.price == nodes.prices());
            }
        }
    }
    tokens
}

impl ParseNodes {
    /// From the node no literal and no longest match leads anywhere cheaper.
    spec fn settled(
        self,
        g: ParseGround,
        i: int,
        best: (int, int),
        max_match: int,
        matches: BlockMatches,
    ) -> bool {
        let room = clipped(g.span - i, max_match);
        let far = clipped(g.base + i - g.low, g.window);
        let memory = self.state@[i]@;
        let reaches = reaches_at(memory, g.full, g.base + i, far, room, matches, i);
        let looked = far > 0 && room >= 4;
        &&& self.reached(i)
        &&& self.price@[i + 1] <= self.price@[i] + literal_price(g.prices, g.full[g.base + i])
        &&& 0 <= best.0 <= room
        &&& best.0 >= 4 ==> (match_price(g.prices, self.state@[i]@, best.0, best.1) matches Some(c)
            ==> self.price@[i + best.0] <= self.price@[i] + c)
        &&& looked ==> runs_cheapest(self.prices(), i, g.prices, memory, reaches)
        &&& looked ==> forall|k: int|
            0 <= k < reaches.len() ==> (#[trigger] reaches[k]).1 <= best.0
        &&& looked ==> forall|j: int|
            matches.starts@[i] <= j < matches.starts@[i + 1] ==> clipped(
                (#[trigger] matches.runs@[j]).0 as int,
                room,
            ) <= best.0
    }

    proof fn lemma_later(self, g: ParseGround, limit: int, more: int)
        requires
            self.wf(g, limit),
            limit <= more,
        ensures
            self.wf(g, more),
    {
        assert forall|t: int| 1 <= t <= g.span && #[trigger] self.reached(t) implies self.node_ok(
            g,
            more,
            t,
        ) by {
            assert(self.node_ok(g, limit, t));
        }
    }

    proof fn lemma_still_settled(
        self,
        before: ParseNodes,
        g: ParseGround,
        from: int,
        i: int,
        best: (int, int),
        max_match: int,
        matches: BlockMatches,
    )
        requires
            self.improves(before, from),
            before.price@.len() == g.span + 1,
            before.state@.len() == g.span + 1,
            0 <= i < from < g.span,
            before.settled(g, i, best, max_match, matches),
        ensures
            self.settled(g, i, best, max_match, matches),
    {
        assert(self.price@[i] == before.price@[i]);
        assert(self.state@[i] == before.state@[i]);
        assert(self.price@[i + 1] <= before.price@[i + 1]);
        if best.0 >= 4 {
            assert(self.price@[i + best.0] <= before.price@[i + best.0]);
        }
        let room = clipped(g.span - i, max_match);
        let far = clipped(g.base + i - g.low, g.window);
        let memory = self.state@[i]@;
        let reaches = reaches_at(memory, g.full, g.base + i, far, room, matches, i);
        if far > 0 && room >= 4 {
            assert forall|k: int|
                0 <= k < reaches.len() && run_priced(memory, reaches, k) implies (match_price(
                g.prices,
                memory,
                (#[trigger] reaches[k]).1 as int,
                reaches[k].2 as int,
            ) matches Some(c) ==> self.prices()[i + reaches[k].1] <= self.prices()[i] + c) by {
                assert(reaches[k].1 <= best.0);
                let t = i + reaches[k].1;
                assert(self.price@[t] <= before.price@[t]);
                assert(before.prices()[t] == before.price@[t]);
                assert(before.prices()[i] == before.price@[i]);
            }
        }
    }
}

/// The symbols of a token at `p`, and the memory behind it. A match that is
/// too short for its distance goes out byte by byte.
pub open spec fn token_out(full: Seq<u8>, p: int, token: (u32, u32), g: Memory) -> (
    Seq<Symbol>,
    Memory,
) {
    let length = token.0 as int;
    let distance = token.1 as int;
    let bonus = spec_length_bonus(distance);
    if length == 0 {
        (seq![Symbol::Literal(token.1 as u8)], g)
    } else if distance == g.reps[0] && length == g.last && g.last != 0 {
        (seq![Symbol::Repeat], g)
    } else {
        match first_rep(g.reps, distance) {
            Some(i) => (
                seq![Symbol::CacheRef { index: i as usize, length: token.0 }],
                remembered(g, length, token.1 as u64),
            ),
            None => if length < 2 + bonus {
                (Seq::new(length as nat, |i: int| Symbol::Literal(full[p + i])), g)
            } else {
                (
                    seq![
                        Symbol::Match { distance: token.1 as u64, length: (length - bonus) as u32 },
                    ],
                    remembered(g, length, token.1 as u64),
                )
            },
        }
    }
}

/// The symbols of tokens from `p` on, listed from the last to the first, and
/// the memory behind them.
pub open spec fn tokens_out(full: Seq<u8>, p: int, tokens: Seq<(u32, u32)>, g: Memory) -> (
    Seq<Symbol>,
    Memory,
)
    decreases tokens.len(),
{
    if tokens.len() == 0 {
        (Seq::empty(), g)
    } else {
        let first = tokens.last();
        let (a, h) = token_out(full, p, first, g);
        let (b, k) = tokens_out(full, p + token_len(first), tokens.drop_last(), h);
        (a + b, k)
    }
}

/// Convert tokens, listed from the last to the first, into symbols with a
/// live cache walk, counting what they need at the same time (the block
/// writer counts it the same way). `state` is advanced, mirroring the
/// decoder's cache transitions.
#[verifier::rlimit(40)]
#[verifier::spinoff_prover]
fn convert_tokens(
    tokens: &Vec<(u32, u32)>,
    frame: &[u8],
    start: usize,
    end: usize,
    state: &mut EncoderMatchState,
    extra_dist: bool,
    Ghost(full): Ghost<Seq<u8>>,
    Ghost(max_match): Ghost<int>,
    Ghost(window): Ghost<int>,
) -> (r: (Vec<Symbol>, Frequencies))
    requires
        max_match <= MAX_MATCH,
        start <= end <= frame@.len(),
        end - start <= MAX_BLOCK_SIZE,
        is_suffix(frame@, full),
        tokens_ok(full, tokens@, full.len() - frame@.len() + end, max_match, window),
        tokens_start(tokens@, full.len() - frame@.len() + end) == full.len() - frame@.len()
            + start,
    ensures
        sym_run(full, window, full.len() - frame@.len() + start, old(state)@, r.0@) == Some(
            (full.len() - frame@.len() + end, final(state)@),
        ),
        tokens_out(full, full.len() - frame@.len() + start, tokens@, old(state)@) == (
            r.0@,
            final(state)@,
        ),
        r.1.wf(),
        r.1.dc@.len() == if extra_dist {
            crate::codec::tables::HUFF_DCX
        } else {
            HUFF_DC
        },
        r.1.counts() == counts_of(r.0@, r.1.dc@.len()),
{
    let ghost delta = full.len() - frame@.len();
    let ghost p0 = delta + start;
    let ghost g0 = state@;
    let mut freq = Frequencies::new(extra_dist);
    let ghost dcn = freq.dc@.len();
    let mut symbols: Vec<Symbol> = Vec::new();
    let mut pos: usize = start;
    let mut k: usize = tokens.len();
    assert(tokens@.subrange(0, k as int) =~= tokens@);
    let ghost all = tokens_out(full, p0, tokens@, g0);
    assert(symbols@ + all.0 =~= all.0);
    while k > 0
        invariant
            k <= tokens@.len(),
            start <= pos,
            start <= end <= frame@.len(),
            end - start <= MAX_BLOCK_SIZE,
            is_suffix(frame@, full),
            delta == full.len() - frame@.len(),
            p0 == delta + start,
            max_match <= MAX_MATCH,
            tokens_ok(full, tokens@, delta + end, max_match, window),
            tokens_start(tokens@.subrange(0, k as int), delta + end) == delta + pos,
            pos <= end,
            sym_run(full, window, p0, g0, symbols@) == Some((delta + pos, state@)),
            all == tokens_out(full, p0, tokens@, g0),
            ({
                let rest = tokens_out(full, delta + pos, tokens@.subrange(0, k as int), state@);
                all == (symbols@ + rest.0, rest.1)
            }),
            freq.wf(),
            freq.dc@.len() == dcn,
            freq.counts() == counts_of(symbols@, dcn),
            freq.at_most(pos - start),
        decreases k,
    {
        let ghost before = symbols@;
        let ghost was = state@;
        let (length, distance) = tokens[k - 1];
        let ghost p = delta + pos;
        let ghost rest = tokens@.subrange(0, k - 1);
        proof {
            assert(tokens@.subrange(0, k as int).drop_last() =~= rest);
            assert(token_ok(full, p, tokens@[k - 1], max_match, window));
            assert(tokens_start(rest, delta + end) == p + token_len((length, distance)));
            lemma_tokens_end(rest, delta + end);
        }
        if length == 0 {
            let sym = Symbol::Literal(distance as u8);
            proof {
                lemma_sym_run_push(full, window, p0, g0, symbols@, sym);
            }
            let ghost said = symbols@;
            freq.count(sym);
            symbols.push(sym);
            assert(symbols@.drop_last() =~= said);
            pos = pos + 1;
        } else if distance == state.reps[0] && length == state.last_length && state.last_length != 0 {
            let sym = Symbol::Repeat;
            proof {
                lemma_sym_run_push(full, window, p0, g0, symbols@, sym);
            }
            let ghost said = symbols@;
            freq.count(sym);
            symbols.push(sym);
            assert(symbols@.drop_last() =~= said);
            pos = pos + length as usize;
        } else {
            match cache_find(&state.reps, distance) {
                Some(index) => {
                    let sym = Symbol::CacheRef { index, length };
                    proof {
                        lemma_length_slot_exists(length as int);
                        lemma_sym_run_push(full, window, p0, g0, symbols@, sym);
                    }
                    let ghost said = symbols@;
                    freq.count(sym);
                    symbols.push(sym);
                    assert(symbols@.drop_last() =~= said);
                    state.remember(length, distance);
                    pos = pos + length as usize;
                },
                None => {
                    let bonus: u32 = length_bonus(distance as u64);
                    if length < 2 + bonus {
                        // The parse never picks a match that cannot be
                        // written; should it, its bytes go out one by one.
                        let mut i: u32 = 0;
                        assert(symbols@ =~= before + Seq::new(
                            0,
                            |j: int| Symbol::Literal(full[p + j]),
                        ));
                        while i < length
                            invariant
                                i <= length,
                                length <= MAX_MATCH,
                                pos + (length - i) <= end,
                                start <= pos,
                                start <= end <= frame@.len(),
                                end - start <= MAX_BLOCK_SIZE,
                                is_suffix(frame@, full),
                                delta == full.len() - frame@.len(),
                                p0 == delta + start,
                                p + i == delta + pos,
                                symbols@ == before + Seq::new(
                                    i as nat,
                                    |j: int| Symbol::Literal(full[p + j]),
                                ),
                                sym_run(full, window, p0, g0, symbols@) == Some(
                                    (delta + pos, state@),
                                ),
                                freq.wf(),
                                freq.dc@.len() == dcn,
                                freq.counts() == counts_of(symbols@, dcn),
                                freq.at_most(pos - start),
                            decreases length - i,
                        {
                            let sym = Symbol::Literal(frame[pos]);
                            proof {
                                assert(full.subrange(delta, full.len() as int)[pos as int]
                                    == frame@[pos as int]);
                                lemma_sym_run_push(full, window, p0, g0, symbols@, sym);
                            }
                            let ghost said = symbols@;
                            freq.count(sym);
                            symbols.push(sym);
                            assert(symbols@.drop_last() =~= said);
                            pos = pos + 1;
                            i = i + 1;
                            assert(symbols@ =~= before + Seq::new(
                                i as nat,
                                |j: int| Symbol::Literal(full[p + j]),
                            ));
                        }
                    } else {
                        let sym = Symbol::Match { distance: distance as u64, length: length - bonus };
                        proof {
                            lemma_length_slot_exists(length - bonus);
                            lemma_distance_slot_exists(distance as int);
                            lemma_sym_run_push(full, window, p0, g0, symbols@, sym);
                        }
                        let ghost said = symbols@;
                        freq.count(sym);
                        symbols.push(sym);
                        assert(symbols@.drop_last() =~= said);
                        state.remember(length, distance);
                        pos = pos + length as usize;
                    }
                },
            }
        }
        k = k - 1;
        proof {
            let out = token_out(full, p, (length, distance), was);
            let after = tokens_out(full, delta + pos, rest, out.1);
            assert(state@ == out.1);
            assert(symbols@ =~= before + out.0);
            assert(before + (out.0 + after.0) =~= symbols@ + after.0);
        }
    }
    assert(tokens@.subrange(0, 0) =~= Seq::<(u32, u32)>::empty());
    assert(symbols@ + Seq::<Symbol>::empty() =~= symbols@);
    (symbols, freq)
}

/// No token of the list starts behind its end.
proof fn lemma_tokens_end(tokens: Seq<(u32, u32)>, end: int)
    ensures
        tokens_start(tokens, end) <= end,
    decreases tokens.len(),
{
    if tokens.len() > 0 {
        lemma_tokens_end(tokens.drop_last(), end);
    }
}

/// One pass of a parse: the prices it went by, the tokens it chose, and what
/// the ways through the block cost.
pub ghost struct ParsePass {
    pub prices: Option<TokenPrices>,
    pub tokens: Seq<(u32, u32)>,
    pub table: PriceTable,
}

/// The pass's tokens lead through the block, and cost what the cheapest way
/// does.
pub open spec fn is_pass(
    full: Seq<u8>,
    sg: SearchGround,
    matches: BlockMatches,
    g: Memory,
    pass: ParsePass,
) -> bool {
    let low = full.len() - sg.frame.len();
    let start = low + sg.start;
    &&& pass.table.is_for(
        pass.prices,
        full,
        start,
        sg.span,
        sg.max_match,
        matches,
        g,
        low,
        sg.window,
    )
    &&& tokens_ok(full, pass.tokens, start + sg.span, sg.max_match, sg.window)
    &&& tokens_start(pass.tokens, start + sg.span) == start
    &&& tokens_price(pass.prices, g, pass.tokens) == Some(pass.table.price[sg.span])
}

/// The prices are those of codes for the symbols.
pub open spec fn prices_for(symbols: Seq<Symbol>, prices: Option<TokenPrices>) -> bool {
    match prices {
        Some(p) => codes_for(
            counts_of(symbols, p.dc@.len()),
            CodeLengths { nc: p.nc@, dc: p.dc@, ldc: p.ldc@, rc: p.rc@ },
        ),
        None => false,
    }
}

/// Passes over a block: the first as if every code were as long as another,
/// each that follows by the codes for what the one before chose.
pub open spec fn are_passes(
    full: Seq<u8>,
    sg: SearchGround,
    matches: BlockMatches,
    g: Memory,
    chain: Seq<ParsePass>,
) -> bool {
    let start = full.len() - sg.frame.len() + sg.start;
    &&& chain.len() > 0
    &&& chain[0].prices is None
    &&& forall|k: int|
        0 <= k < chain.len() ==> is_pass(full, sg, matches, g, #[trigger] chain[k])
    &&& forall|k: int|
        1 <= k < chain.len() ==> prices_for(
            tokens_out(full, start, chain[k - 1].tokens, g).0,
            (#[trigger] chain[k]).prices,
        )
}

/// One more pass.
proof fn lemma_passes_push(
    full: Seq<u8>,
    sg: SearchGround,
    matches: BlockMatches,
    g: Memory,
    chain: Seq<ParsePass>,
    pass: ParsePass,
)
    requires
        are_passes(full, sg, matches, g, chain),
        is_pass(full, sg, matches, g, pass),
        prices_for(
            tokens_out(
                full,
                full.len() - sg.frame.len() + sg.start,
                chain.last().tokens,
                g,
            ).0,
            pass.prices,
        ),
    ensures
        are_passes(full, sg, matches, g, chain.push(pass)),
{
    let more = chain.push(pass);
    let start = full.len() - sg.frame.len() + sg.start;
    assert forall|k: int| 0 <= k < more.len() implies is_pass(
        full,
        sg,
        matches,
        g,
        #[trigger] more[k],
    ) by {
        if k < chain.len() {
            assert(more[k] == chain[k]);
        }
    }
    assert forall|k: int| 1 <= k < more.len() implies prices_for(
        tokens_out(full, start, more[k - 1].tokens, g).0,
        (#[trigger] more[k]).prices,
    ) by {
        assert(more[k - 1] == chain[k - 1]);
        if k < chain.len() {
            assert(more[k] == chain[k]);
        }
    }
}

/// The symbols and the memory are those of the last pass over a block's
/// matches.
pub open spec fn parse_result(
    full: Seq<u8>,
    sg: SearchGround,
    chain_len: int,
    passes: int,
    before: MatchFinder,
    after: MatchFinder,
    g: Memory,
    symbols: Seq<Symbol>,
    h: Memory,
) -> bool {
    let start = full.len() - sg.frame.len() + sg.start;
    exists|matches: BlockMatches, chain: Seq<ParsePass>|
        {
            &&& block_matches_ok(matches, full, start, sg.span, sg.window)
            &&& sg.frame.len() <= u32::MAX && chain_len > 0 ==> matches_collected(
                sg,
                before,
                after,
                matches,
            )
            &&& #[trigger] are_passes(full, sg, matches, g, chain)
            &&& chain.len() == if passes > 1 {
                passes
            } else {
                1
            }
            &&& tokens_out(full, start, chain.last().tokens, g) == (symbols, h)
        }
}

/// Parse one block with the optimal parse: collect matches once, then run the
/// passes, each repricing against the codes the pass before produced. The
/// last pass's tokens are converted to symbols with the live cache state.
pub fn parse_one_block(
    frame: &[u8],
    start: usize,
    end: usize,
    finder: &mut MatchFinder,
    state: &mut EncoderMatchState,
    chain_len: usize,
    max_match: usize,
    window: usize,
    lr: Option<LongRangeProbe<'_>>,
    extra_dist: bool,
    passes: usize,
    Ghost(full): Ghost<Seq<u8>>,
) -> (symbols: Vec<Symbol>)
    requires
        old(finder).wf(),
        start <= end <= frame@.len(),
        end - start <= MAX_BLOCK_SIZE,
        max_match <= MAX_MATCH,
        is_suffix(frame@, full),
        probe_ok(lr, full, frame@, window as int),
        lr is Some ==> lr->Some_0.chunk_start <= start,
    ensures
        final(finder).wf(),
        sym_run(
            full,
            window as int,
            full.len() - frame@.len() + start,
            old(state)@,
            symbols@,
        ) == Some((full.len() - frame@.len() + end, final(state)@)),
        parse_result(
            full,
            search_ground(
                frame@,
                start as int,
                end as int,
                max_match as int,
                window as int,
                far_ground(lr),
            ),
            chain_len as int,
            passes as int,
            *old(finder),
            *final(finder),
            old(state)@,
            symbols@,
            final(state)@,
        ),
{
    let matches = collect_block_matches(
        finder,
        frame,
        start,
        end,
        chain_len,
        max_match,
        window,
        lr,
        Ghost(full),
    );
    let initial: EncoderMatchState = *state;
    let mut prices: Option<TokenPrices> = None;
    let mut tokens = optimal_parse_tokens(
        frame,
        start,
        end,
        max_match,
        window,
        &prices,
        &matches,
        initial,
        Ghost(full),
    );
    let ghost low = full.len() - frame@.len();
    let ghost sg = search_ground(
        frame@,
        start as int,
        end as int,
        max_match as int,
        window as int,
        far_ground(lr),
    );
    let ghost mut chain: Seq<ParsePass> = Seq::empty();
    proof {
        let table = choose|table: PriceTable| #[trigger]
            table.is_for(
                prices,
                full,
                low + start,
                end - start,
                max_match as int,
                matches,
                initial@,
                low,
                window as int,
            ) && tokens_price(prices, initial@, tokens@) == Some(table.price[end - start]);
        let first = ParsePass { prices, tokens: tokens@, table };
        assert(is_pass(full, sg, matches, initial@, first));
        chain = seq![first];
    }
    let mut pass: usize = 1;
    while pass < passes
        invariant
            low == full.len() - frame@.len(),
            sg == search_ground(
                frame@,
                start as int,
                end as int,
                max_match as int,
                window as int,
                far_ground(lr),
            ),
            are_passes(full, sg, matches, initial@, chain),
            chain.len() == pass,
            chain.last().tokens == tokens@,
            1 <= pass,
            pass <= passes || pass == 1,
            start <= end <= frame@.len(),
            end - start <= MAX_BLOCK_SIZE,
            max_match <= MAX_MATCH,
            is_suffix(frame@, full),
            block_matches_ok(
                matches,
                full,
                full.len() - frame@.len() + start,
                end - start,
                window as int,
            ),
            tokens_ok(
            full,
            tokens@,
            full.len() - frame@.len() + end,
            max_match as int,
            window as int,
        ),
            tokens_start(tokens@, full.len() - frame@.len() + end) == full.len() - frame@.len()
                + start,
            initial@ == old(state)@,
            frame@.len() <= u32::MAX && chain_len > 0 ==> matches_collected(
                sg,
                *old(finder),
                *finder,
                matches,
            ),
        decreases passes - pass,
    {
        let mut screen: EncoderMatchState = initial;
        let ghost earlier = tokens@;
        let (symbols, freq) = convert_tokens(
            &tokens,
            frame,
            start,
            end,
            &mut screen,
            extra_dist,
            Ghost(full),
            Ghost(max_match as int),
            Ghost(window as int),
        );
        let (nc, dc, ldc, rc) = freq.code_lengths();
        prices = Some(TokenPrices { nc, dc, ldc, rc });
        assert(prices_for(symbols@, prices));
        tokens = optimal_parse_tokens(
            frame,
            start,
            end,
            max_match,
            window,
            &prices,
            &matches,
            initial,
            Ghost(full),
        );
        proof {
            let table = choose|table: PriceTable| #[trigger]
                table.is_for(
                    prices,
                    full,
                    low + start,
                    end - start,
                    max_match as int,
                    matches,
                    initial@,
                    low,
                    window as int,
                ) && tokens_price(prices, initial@, tokens@) == Some(table.price[end - start]);
            let next = ParsePass { prices, tokens: tokens@, table };
            assert(is_pass(full, sg, matches, initial@, next));
            assert(tokens_out(full, low + start, earlier, initial@).0 == symbols@);
            lemma_passes_push(full, sg, matches, initial@, chain, next);
            chain = chain.push(next);
        }
        pass = pass + 1;
    }
    let (symbols, _) = convert_tokens(
        &tokens,
        frame,
        start,
        end,
        state,
        extra_dist,
        Ghost(full),
        Ghost(max_match as int),
        Ghost(window as int),
    );
    proof {
        assert(are_passes(full, sg, matches, initial@, chain));
        assert(parse_result(
            full,
            sg,
            chain_len as int,
            passes as int,
            *old(finder),
            *finder,
            initial@,
            symbols@,
            state@,
        ));
    }
    symbols
}

} // verus!
