//! The greedy search: at each position the longest match tried is taken,
//! looking one byte ahead where the level says so.

use crate::codec::encode::LevelParams;
use crate::codec::lz::{cache_pushed, cache_touched};
use crate::codec::match_finder::{
    agrees_for, beats_nearest, hash4, is_suffix, no_later, none_hashed, tries_cache, MatchFinder,
    LONG_RANGE_STEP,
};
use crate::codec::matching::{
    knows, lemma_sym_run_push, lemma_valid_match_extend, sym_run, valid_match, Memory,
};
use crate::codec::parse::{
    beats_far, cache_find, cache_push, cache_touch, far_ground, first_rep, probe_long_range,
    probe_ok, EncoderMatchState, FarGround, LongRangeProbe, FAST_MODE_AFTER, FAST_RECOVER_INTERVAL,
    LONG_ENOUGH_NEAR,
};
use crate::codec::slots::{
    lemma_distance_slot_exists, lemma_length_slot_exists, length_bonus, spec_length_bonus,
    MAX_MATCH,
};
use crate::codec::symbols::Symbol;
use vstd::prelude::*;

verus! {

/// Longest match that fits behind `pos`.
pub open spec fn length_limit(frame: Seq<u8>, pos: int, max_match: int) -> int {
    if frame.len() - pos < max_match {
        frame.len() - pos
    } else {
        max_match
    }
}

/// Farthest distance that is searched at `pos`.
pub open spec fn near_reach(pos: int, window: int) -> int {
    let d = if pos < window {
        pos
    } else {
        window
    };
    if d > 0xFFFF_FFFF {
        0xFFFF_FFFF
    } else {
        d
    }
}

/// `p` is the last position before `pos`, from `lo` on, whose four bytes hash
/// as those at `pos` do.
pub open spec fn is_nearest(frame: Seq<u8>, lo: int, pos: int, p: int) -> bool {
    &&& lo <= p < pos
    &&& pos + 4 <= frame.len()
    &&& hash4(frame, p) == hash4(frame, pos)
    &&& no_later(frame, p, pos)
}

/// The search at `pos` found `found` bytes: no fewer than repeat at a
/// remembered distance, or at the nearest position with the same hash: from
/// `lo` on where there is one, else what the finder had at the start.
pub open spec fn searched(
    frame: Seq<u8>,
    lo: int,
    start: MatchFinder,
    pos: int,
    reps: Seq<u64>,
    params: LevelParams,
    window: int,
    found: int,
) -> bool {
    let limit = length_limit(frame, pos, params.max_match as int);
    let reach = near_reach(pos, window);
    &&& forall|i: int, l: int|
        #![trigger agrees_for(frame, pos, reps[i] as int, l)]
        0 <= i < 4 && 1 <= reps[i] <= reach && 2 <= l <= limit && agrees_for(
            frame,
            pos,
            reps[i] as int,
            l,
        ) ==> found >= l
    &&& params.chain_len > 0 ==> forall|p: int, l: int|
        #![trigger is_nearest(frame, lo, pos, p), agrees_for(frame, pos, pos - p, l)]
        is_nearest(frame, lo, pos, p) && pos - p <= reach && 4 <= l <= limit && agrees_for(
            frame,
            pos,
            pos - p,
            l,
        ) ==> found >= l
    &&& params.chain_len > 0 && none_hashed(frame, lo, pos, hash4(frame, pos)) ==> beats_nearest(
        frame,
        pos,
        start.nearest(frame, pos),
        limit,
        reach,
        found,
    )
}

/// One step of the search.
pub ghost struct GreedyStep {
    /// Where it stands.
    pub at: int,
    /// The near search was left out.
    pub thin: bool,
    /// Length of what was found there.
    pub found: int,
    /// A longer match was found one byte later, and a literal goes first.
    pub ahead: bool,
    /// The match taken; zero where there is none.
    pub distance: int,
    pub length: int,
}

/// Where a step ends.
pub open spec fn step_end(s: GreedyStep) -> int {
    if s.distance == 0 {
        s.at + 1
    } else if s.ahead {
        s.at + 1 + s.length
    } else {
        s.at + s.length
    }
}

/// Bytes as literals.
pub open spec fn literals(frame: Seq<u8>, from: int, to: int) -> Seq<Symbol> {
    Seq::new((to - from) as nat, |i: int| Symbol::Literal(frame[from + i]))
}

/// How a match is written, and the memory behind it: by its place among the
/// remembered distances, as a repeat of the last match, or with its distance.
/// One that is too short for its distance goes out byte by byte.
pub open spec fn match_out(frame: Seq<u8>, from: int, distance: int, length: int, g: Memory) -> (
    Seq<Symbol>,
    Memory,
) {
    let bonus = spec_length_bonus(distance);
    match first_rep(g.reps, distance) {
        Some(i) => if i == 0 && length == g.last && g.last > 0 {
            (seq![Symbol::Repeat], g)
        } else {
            (
                seq![Symbol::CacheRef { index: i as usize, length: length as u32 }],
                Memory { reps: cache_touched(g.reps, i), last: length },
            )
        },
        None => if length >= 2 + bonus {
            (
                seq![Symbol::Match { distance: distance as u64, length: (length - bonus) as u32 }],
                Memory { reps: cache_pushed(g.reps, distance as u64), last: length },
            )
        } else {
            (literals(frame, from, from + length), Memory { last: 0, ..g })
        },
    }
}

/// The symbols of a step, and the memory behind it.
pub open spec fn step_out(frame: Seq<u8>, s: GreedyStep, g: Memory) -> (Seq<Symbol>, Memory) {
    if s.distance == 0 {
        (literals(frame, s.at, s.at + 1), Memory { last: 0, ..g })
    } else if s.ahead {
        let (m, h) = match_out(
            frame,
            s.at + 1,
            s.distance,
            s.length,
            Memory { last: 0, ..g },
        );
        (literals(frame, s.at, s.at + 1) + m, h)
    } else {
        match_out(frame, s.at, s.distance, s.length, g)
    }
}

/// The symbols of steps, and the memory behind them.
pub open spec fn steps_out(frame: Seq<u8>, steps: Seq<GreedyStep>, g: Memory) -> (
    Seq<Symbol>,
    Memory,
)
    decreases steps.len(),
{
    if steps.len() == 0 {
        (Seq::empty(), g)
    } else {
        let (a, h) = steps_out(frame, steps.drop_last(), g);
        let (b, k) = step_out(frame, steps.last(), h);
        (a + b, k)
    }
}

/// Where steps from `start` on end.
pub open spec fn steps_end(steps: Seq<GreedyStep>, start: int) -> int {
    if steps.len() == 0 {
        start
    } else {
        step_end(steps.last())
    }
}

/// The pace behind steps: whether the search is thinned out, and how many steps
/// found nothing since it last was, or since the start.
pub open spec fn pace(steps: Seq<GreedyStep>) -> (bool, int)
    decreases steps.len(),
{
    if steps.len() == 0 {
        (false, 0)
    } else {
        let (fast, run) = pace(steps.drop_last());
        if steps.last().distance == 0 {
            (fast || run + 1 >= FAST_MODE_AFTER, run + 1)
        } else if fast {
            (false, 0)
        } else {
            (false, run)
        }
    }
}

/// The level has a step look one byte ahead.
pub open spec fn looks_ahead(frame: Seq<u8>, s: GreedyStep, params: LevelParams) -> bool {
    &&& 0 < s.found < params.lazy_thresh
    &&& s.at + 1 < frame.len()
}

/// A near match of this length is taken without a look at the history; none is
/// where the search is thinned out.
pub open spec fn enough_near(fast: bool) -> int {
    if fast {
        MAX_MATCH + 1
    } else {
        LONG_ENOUGH_NEAR as int
    }
}

/// A step is what the search asks for: positions are passed over only after a
/// long run without a match, in the history all but the sampled ones; of a
/// match and the one a byte later the longer is taken.
pub open spec fn justified(
    frame: Seq<u8>,
    lo: int,
    start: MatchFinder,
    far: Option<FarGround>,
    s: GreedyStep,
    g: Memory,
    fast: bool,
    params: LevelParams,
    window: int,
) -> bool {
    &&& s.thin == (fast && s.at % (FAST_RECOVER_INTERVAL as int) != 0)
    &&& s.thin && (far is None || s.at % (LONG_RANGE_STEP as int) != 0) ==> s.found == 0
    &&& !s.thin ==> searched(frame, lo, start, s.at, g.reps, params, window, s.found)
    &&& !fast || s.at % (LONG_RANGE_STEP as int) == 0 ==> beats_far(
        far,
        frame,
        s.at,
        length_limit(frame, s.at, params.max_match as int),
        s.found,
        enough_near(fast),
    )
    &&& looks_ahead(frame, s, params) ==> searched(
        frame,
        lo,
        start,
        s.at + 1,
        g.reps,
        params,
        window,
        s.length,
    )
    &&& if s.ahead {
        looks_ahead(frame, s, params) && s.length > s.found
    } else {
        s.length == s.found
    }
    &&& s.distance == 0 <==> s.length == 0
}

/// Steps follow each other from `lo` on, each as the search asks for.
pub open spec fn is_greedy(
    frame: Seq<u8>,
    lo: int,
    start: MatchFinder,
    far: Option<FarGround>,
    params: LevelParams,
    window: int,
    g: Memory,
    steps: Seq<GreedyStep>,
) -> bool
    decreases steps.len(),
{
    if steps.len() == 0 {
        true
    } else {
        let before = steps.drop_last();
        &&& is_greedy(frame, lo, start, far, params, window, g, before)
        &&& steps.last().at == steps_end(before, lo)
        &&& justified(
            frame,
            lo,
            start,
            far,
            steps.last(),
            steps_out(frame, before, g).1,
            pace(before).0,
            params,
            window,
        )
    }
}

/// The symbols and the memory are those of a greedy search of the frame from
/// `lo` to its end, with the finder as it was at the start and the history
/// given.
pub open spec fn greedy_result(
    frame: Seq<u8>,
    lo: int,
    start: MatchFinder,
    far: Option<FarGround>,
    params: LevelParams,
    window: int,
    g: Memory,
    symbols: Seq<Symbol>,
    h: Memory,
) -> bool {
    exists|steps: Seq<GreedyStep>| #[trigger]
        is_greedy(frame, lo, start, far, params, window, g, steps) && steps_end(steps, lo)
            == frame.len() && steps_out(frame, steps, g) == (symbols, h)
}

proof fn lemma_searched(
    finder: MatchFinder,
    start: MatchFinder,
    frame: Seq<u8>,
    lo: int,
    pos: int,
    state: EncoderMatchState,
    params: LevelParams,
    window: int,
    found: int,
)
    requires
        0 <= lo <= pos <= frame.len() <= u32::MAX,
        finder.seen_since(start, frame, lo, pos),
        tries_cache(
            frame,
            pos,
            state.reps@,
            4,
            length_limit(frame, pos, params.max_match as int),
            near_reach(pos, window),
            found,
        ),
        params.chain_len > 0 ==> beats_nearest(
            frame,
            pos,
            finder.nearest(frame, pos),
            length_limit(frame, pos, params.max_match as int),
            near_reach(pos, window),
            found,
        ),
    ensures
        searched(frame, lo, start, pos, state@.reps, params, window, found),
{
    let limit = length_limit(frame, pos, params.max_match as int);
    let reach = near_reach(pos, window);
    let reps = state@.reps;
    assert forall|i: int, l: int|
        #![trigger agrees_for(frame, pos, reps[i] as int, l)]
        0 <= i < 4 && 1 <= reps[i] <= reach && 2 <= l <= limit && agrees_for(
            frame,
            pos,
            reps[i] as int,
            l,
        ) implies found >= l by {
        assert(agrees_for(frame, pos, state.reps@[i] as int, l));
    }
    if params.chain_len > 0 {
        assert forall|p: int, l: int|
            #![trigger is_nearest(frame, lo, pos, p), agrees_for(frame, pos, pos - p, l)]
            is_nearest(frame, lo, pos, p) && pos - p <= reach && 4 <= l <= limit && agrees_for(
                frame,
                pos,
                pos - p,
                l,
            ) implies found >= l by {
            finder.lemma_nearest(frame, lo, pos, p);
        }
        if none_hashed(frame, lo, pos, hash4(frame, pos)) {
            finder.lemma_nearest_before(start, frame, lo, pos, pos);
        }
    }
}

/// The longest near match at `pos`: distance and length, zero where none.
fn search_near(
    frame: &[u8],
    finder: &mut MatchFinder,
    pos: usize,
    params: LevelParams,
    window: usize,
    state: &EncoderMatchState,
    Ghost(full): Ghost<Seq<u8>>,
    Ghost(lo): Ghost<int>,
    Ghost(start): Ghost<MatchFinder>,
) -> (r: (usize, usize))
    requires
        old(finder).wf(),
        pos < frame@.len(),
        params.max_match <= MAX_MATCH,
        is_suffix(frame@, full),
        0 <= lo <= pos,
    ensures
        final(finder).wf(),
        r.0 == 0 <==> r.1 == 0,
        r.0 > 0 ==> 2 <= r.1 <= params.max_match && pos + r.1 <= frame@.len() && r.0 <= u32::MAX
            && valid_match(
            full,
            full.len() - frame@.len() + pos,
            r.0 as int,
            r.1 as int,
            window as int,
        ),
        frame@.len() <= u32::MAX && old(finder).seen_since(start, frame@, lo, pos as int) ==> {
            &&& final(finder).seen_since(start, frame@, lo, pos + 1)
            &&& searched(
                frame@,
                lo,
                start,
                pos as int,
                state@.reps,
                params,
                window as int,
                r.1 as int,
            )
        },
{
    let mut max_distance: usize = if pos < window { pos } else { window };
    if max_distance > 0xFFFF_FFFF {
        max_distance = 0xFFFF_FFFF;
    }
    let room: usize = frame.len() - pos;
    let limit: usize = if room < params.max_match { room } else { params.max_match };
    let (d, l) = finder.find_match_cached(
        frame,
        pos,
        limit,
        max_distance,
        params.chain_len,
        &state.reps,
    );
    proof {
        if d > 0 {
            assert(valid_match(frame@, pos as int, d as int, l as int, window as int));
            lemma_valid_match_extend(
                frame@,
                full,
                pos as int,
                d as int,
                l as int,
                window as int,
            );
        }
        if frame@.len() <= u32::MAX && old(finder).seen_since(start, frame@, lo, pos as int) {
            finder.lemma_seen_since(*old(finder), start, frame@, lo, pos as int);
            lemma_searched(
                *old(finder),
                start,
                frame@,
                lo,
                pos as int,
                *state,
                params,
                window as int,
                l as int,
            );
        }
    }
    (d, l)
}

/// The match to take at `pos`, near or long-range: distance and length, zero
/// where none. Thinned out in fast mode.
fn search_at(
    frame: &[u8],
    finder: &mut MatchFinder,
    pos: usize,
    params: LevelParams,
    window: usize,
    state: &EncoderMatchState,
    lr: Option<LongRangeProbe<'_>>,
    fast: bool,
    Ghost(full): Ghost<Seq<u8>>,
    Ghost(lo): Ghost<int>,
    Ghost(start): Ghost<MatchFinder>,
) -> (r: (usize, usize))
    requires
        old(finder).wf(),
        pos < frame@.len(),
        params.max_match <= MAX_MATCH,
        is_suffix(frame@, full),
        probe_ok(lr, full, frame@, window as int),
        lr is Some ==> lr->Some_0.chunk_start <= pos,
        0 <= lo <= pos,
    ensures
        final(finder).wf(),
        r.0 == 0 <==> r.1 == 0,
        r.0 > 0 ==> 2 <= r.1 <= params.max_match && pos + r.1 <= frame@.len() && r.0 <= u32::MAX
            && valid_match(
            full,
            full.len() - frame@.len() + pos,
            r.0 as int,
            r.1 as int,
            window as int,
        ),
        frame@.len() <= u32::MAX && old(finder).seen_since(start, frame@, lo, pos as int) ==> {
            &&& final(finder).seen_since(start, frame@, lo, pos + 1)
            &&& !(fast && pos % FAST_RECOVER_INTERVAL != 0) ==> searched(
                frame@,
                lo,
                start,
                pos as int,
                state@.reps,
                params,
                window as int,
                r.1 as int,
            )
        },
        !fast || pos % LONG_RANGE_STEP == 0 ==> beats_far(
            far_ground(lr),
            frame@,
            pos as int,
            length_limit(frame@, pos as int, params.max_match as int),
            r.1 as int,
            enough_near(fast),
        ),
        fast && pos % FAST_RECOVER_INTERVAL != 0 && (lr is None || pos % LONG_RANGE_STEP != 0)
            ==> r.1 == 0,
{
    let mut dist: usize = 0;
    let mut length: usize = 0;
    if fast && pos % FAST_RECOVER_INTERVAL != 0 {
        finder.insert(frame, pos);
        proof {
            if frame@.len() <= u32::MAX && old(finder).seen_since(start, frame@, lo, pos as int) {
                finder.lemma_seen_since(*old(finder), start, frame@, lo, pos as int);
            }
        }
    } else {
        let (d, l) = search_near(
            frame,
            finder,
            pos,
            params,
            window,
            state,
            Ghost(full),
            Ghost(lo),
            Ghost(start),
        );
        dist = d;
        length = l;
    }
    let ghost near = length;
    if let Some(probe) = lr {
        let wanted: bool = if fast {
            pos % LONG_RANGE_STEP == 0
        } else {
            length < LONG_ENOUGH_NEAR
        };
        if wanted {
            if let Some((l, d)) = probe_long_range(
                probe,
                frame,
                pos,
                frame.len(),
                params.max_match,
                Ghost(full),
                Ghost(window as int),
            ) {
                if l as usize > length {
                    dist = d as usize;
                    length = l as usize;
                }
            }
        }
    }
    assert(length >= near);
    (dist, length)
}

/// What was chosen at a position. `seen` is the first position that was not
/// taken into the chains.
#[derive(Clone, Copy)]
struct Choice {
    thin: bool,
    found: usize,
    ahead: bool,
    dist: usize,
    length: usize,
    seen: usize,
}

/// The step of a choice.
spec fn step_of(pos: int, c: Choice) -> GreedyStep {
    GreedyStep {
        at: pos,
        thin: c.thin,
        found: c.found as int,
        ahead: c.ahead,
        distance: c.dist as int,
        length: c.length as int,
    }
}

/// Choose what to do at `pos`: the match found there, or a longer one found
/// one byte later.
fn choose_match(
    frame: &[u8],
    finder: &mut MatchFinder,
    pos: usize,
    params: LevelParams,
    window: usize,
    state: &EncoderMatchState,
    lr: Option<LongRangeProbe<'_>>,
    fast: bool,
    Ghost(full): Ghost<Seq<u8>>,
    Ghost(lo): Ghost<int>,
    Ghost(start): Ghost<MatchFinder>,
) -> (c: Choice)
    requires
        old(finder).wf(),
        pos < frame@.len(),
        params.max_match <= MAX_MATCH,
        is_suffix(frame@, full),
        probe_ok(lr, full, frame@, window as int),
        lr is Some ==> lr->Some_0.chunk_start <= pos,
        0 <= lo <= pos,
    ensures
        final(finder).wf(),
        c.dist == 0 <==> c.length == 0,
        c.ahead ==> c.dist > 0 && pos + 1 < frame@.len(),
        c.seen == pos + 1 || c.seen == pos + 2 && c.dist > 0,
        c.dist > 0 ==> {
            let s = if c.ahead {
                pos + 1
            } else {
                pos as int
            };
            &&& 2 <= c.length <= params.max_match
            &&& s + c.length <= frame@.len()
            &&& c.dist <= u32::MAX
            &&& valid_match(
                full,
                full.len() - frame@.len() + s,
                c.dist as int,
                c.length as int,
                window as int,
            )
        },
        frame@.len() <= u32::MAX && old(finder).seen_since(start, frame@, lo, pos as int) ==> {
            &&& final(finder).seen_since(start, frame@, lo, c.seen as int)
            &&& justified(
                frame@,
                lo,
                start,
                far_ground(lr),
                step_of(pos as int, c),
                state@,
                fast,
                params,
                window as int,
            )
        },
{
    let end: usize = frame.len();
    let thin = fast && pos % FAST_RECOVER_INTERVAL != 0;
    let (dist, length) = search_at(
        frame,
        finder,
        pos,
        params,
        window,
        state,
        lr,
        fast,
        Ghost(full),
        Ghost(lo),
        Ghost(start),
    );
    if dist > 0 && params.lazy_thresh > 0 && length < params.lazy_thresh && pos + 1 < end {
        let (dist2, length2) = search_near(
            frame,
            finder,
            pos + 1,
            params,
            window,
            state,
            Ghost(full),
            Ghost(lo),
            Ghost(start),
        );
        if length2 > length {
            Choice {
                thin,
                found: length,
                ahead: true,
                dist: dist2,
                length: length2,
                seen: pos + 2,
            }
        } else {
            Choice { thin, found: length, ahead: false, dist, length, seen: pos + 2 }
        }
    } else {
        Choice { thin, found: length, ahead: false, dist, length, seen: pos + 1 }
    }
}

/// Write a match that starts at `pos`, if it is long enough for its distance.
fn take_match(
    frame: &[u8],
    pos: usize,
    dist: usize,
    length: usize,
    symbols: &mut Vec<Symbol>,
    state: &mut EncoderMatchState,
    Ghost(full): Ghost<Seq<u8>>,
    Ghost(window): Ghost<int>,
    Ghost(p0): Ghost<int>,
    Ghost(g0): Ghost<Memory>,
    Ghost(g): Ghost<Memory>,
) -> (written: bool)
    requires
        0 < dist <= u32::MAX,
        2 <= length <= MAX_MATCH,
        pos + length <= frame@.len(),
        valid_match(
            full,
            full.len() - frame@.len() + pos,
            dist as int,
            length as int,
            window,
        ),
        knows(old(state)@, g),
        sym_run(full, window, p0, g0, old(symbols)@) == Some((full.len() - frame@.len() + pos, g)),
    ensures
        ({
            let out = match_out(frame@, pos as int, dist as int, length as int, old(state)@);
            &&& final(state)@ == out.1
            &&& if written {
                final(symbols)@ == old(symbols)@ + out.0
            } else {
                &&& final(symbols)@ == old(symbols)@
                &&& out.0 == literals(frame@, pos as int, pos + length)
            }
        }),
        ({
            let r = sym_run(full, window, p0, g0, final(symbols)@);
            &&& r is Some
            &&& knows(final(state)@, r->Some_0.1)
            &&& r->Some_0.0 == full.len() - frame@.len() + pos + if written {
                length as int
            } else {
                0
            }
        }),
{
    let d: u32 = dist as u32;
    let l: u32 = length as u32;
    let ghost s0 = symbols@;
    let ghost m0 = state@;
    match cache_find(&state.reps, d) {
        Some(idx) => {
            proof {
                assert(state@.reps[idx as int] == d);
                assert(g.reps[idx as int] == d);
                lemma_length_slot_exists(l as int);
            }
            if idx == 0 && l == state.last_length && state.last_length > 0 {
                proof {
                    lemma_sym_run_push(full, window, p0, g0, s0, Symbol::Repeat);
                }
                symbols.push(Symbol::Repeat);
                assert(symbols@ =~= s0 + seq![Symbol::Repeat]);
            } else {
                let sym = Symbol::CacheRef { index: idx, length: l };
                let ghost h = Memory { reps: cache_touched(g.reps, idx as int), last: l as int };
                proof {
                    lemma_sym_run_push(full, window, p0, g0, s0, sym);
                }
                symbols.push(sym);
                cache_touch(&mut state.reps, idx);
                state.last_length = l;
                proof {
                    assert(symbols@ =~= s0 + seq![sym]);
                    assert(forall|i: int|
                        0 <= i < 4 && #[trigger] state@.reps[i] != 0 ==> state@.reps[i]
                            == h.reps[i]);
                    assert(state@ == Memory {
                        reps: cache_touched(m0.reps, idx as int),
                        last: l as int,
                    });
                }
            }
            true
        },
        None => {
            let bonus: u32 = length_bonus(d as u64);
            if l >= 2 + bonus {
                let sym = Symbol::Match { distance: d as u64, length: l - bonus };
                let ghost h = Memory { reps: cache_pushed(g.reps, d as u64), last: l as int };
                proof {
                    lemma_length_slot_exists(l - bonus);
                    lemma_distance_slot_exists(d as int);
                    lemma_sym_run_push(full, window, p0, g0, s0, sym);
                }
                symbols.push(sym);
                cache_push(&mut state.reps, d);
                state.last_length = l;
                proof {
                    assert(symbols@ =~= s0 + seq![sym]);
                    assert(forall|i: int|
                        0 <= i < 4 && #[trigger] state@.reps[i] != 0 ==> state@.reps[i]
                            == h.reps[i]);
                    assert(state@ == Memory {
                        reps: cache_pushed(m0.reps, d as u64),
                        last: l as int,
                    });
                }
                true
            } else {
                // Too short for its distance: its bytes go out one by one.
                state.last_length = 0;
                assert(state@ == Memory { last: 0, ..m0 });
                false
            }
        },
    }
}

/// Match-finding loop over `frame[start..]` with a distance cache: the
/// greedy search, looking one symbol ahead where `lazy_thresh` says so.
///
/// After long runs without a match it thins out: every position still goes
/// into the chains, but only now and then one is searched.
#[verifier::rlimit(60)]
#[verifier::spinoff_prover]
pub(crate) fn find_matches_in_range(
    frame: &[u8],
    finder: &mut MatchFinder,
    start: usize,
    params: LevelParams,
    window: usize,
    state: &mut EncoderMatchState,
    lr: Option<LongRangeProbe<'_>>,
    Ghost(full): Ghost<Seq<u8>>,
) -> (symbols: Vec<Symbol>)
    requires
        old(finder).wf(),
        start <= frame@.len(),
        params.max_match <= MAX_MATCH,
        is_suffix(frame@, full),
        probe_ok(lr, full, frame@, window as int),
        lr is Some ==> lr->Some_0.chunk_start == start,
    ensures
        final(finder).wf(),
        ({
            let r = sym_run(
                full,
                window as int,
                full.len() - frame@.len() + start,
                old(state)@,
                symbols@,
            );
            r is Some && r->Some_0.0 == full.len() && knows(final(state)@, r->Some_0.1)
        }),
        frame@.len() <= u32::MAX ==> greedy_result(
            frame@,
            start as int,
            *old(finder),
            far_ground(lr),
            params,
            window as int,
            old(state)@,
            symbols@,
            final(state)@,
        ) && final(finder).seen_since(
            *old(finder),
            frame@,
            start as int,
            frame@.len() as int,
        ),
{
    let ghost f0 = *finder;
    let end: usize = frame.len();
    let ghost delta = full.len() - frame@.len();
    let ghost p0 = delta + start;
    let ghost g0 = state@;
    let ghost small = frame@.len() <= u32::MAX;
    let ghost lo = start as int;
    let ghost far = far_ground(lr);
    let ghost mut steps: Seq<GreedyStep> = Seq::empty();
    let mut symbols: Vec<Symbol> = Vec::new();
    let mut pos: usize = start;
    let mut no_match_run: usize = 0;
    let mut fast: bool = false;
    while pos < end
        invariant
            start <= pos <= end,
            end == frame@.len(),
            finder.wf(),
            params.max_match <= MAX_MATCH,
            is_suffix(frame@, full),
            delta == full.len() - frame@.len(),
            p0 == delta + start,
            lo == start,
            small == (frame@.len() <= u32::MAX),
            probe_ok(lr, full, frame@, window as int),
            lr is Some ==> lr->Some_0.chunk_start == start,
            no_match_run <= pos - start,
            sym_run(full, window as int, p0, g0, symbols@) is Some,
            sym_run(full, window as int, p0, g0, symbols@)->Some_0.0 == delta + pos,
            knows(state@, sym_run(full, window as int, p0, g0, symbols@)->Some_0.1),
            g0 == old(state)@,
            f0 == *old(finder),
            small ==> finder.seen_since(f0, frame@, lo, pos as int),
            pace(steps) == (fast, no_match_run as int),
            small ==> is_greedy(frame@, lo, f0, far, params, window as int, g0, steps),
            far == far_ground(lr),
            steps_end(steps, lo) == pos,
            steps_out(frame@, steps, g0) == (symbols@, state@),
        decreases end - pos,
    {
        let ghost g = sym_run(full, window as int, p0, g0, symbols@)->Some_0.1;
        let ghost before = symbols@;
        let ghost was = state@;
        let ghost at = pos;
        let c = choose_match(
            frame,
            finder,
            pos,
            params,
            window,
            state,
            lr,
            fast,
            Ghost(full),
            Ghost(lo),
            Ghost(f0),
        );
        let ghost step = step_of(at as int, c);
        proof {
            if small {
                assert(justified(
                    frame@,
                    lo,
                    f0,
                    far,
                    step,
                    was,
                    pace(steps).0,
                    params,
                    window as int,
                ));
            }
            assert(full.subrange(delta, full.len() as int)[pos as int] == frame@[pos as int]);
        }
        if c.dist == 0 || c.ahead {
            let sym = Symbol::Literal(frame[pos]);
            proof {
                lemma_sym_run_push(full, window as int, p0, g0, symbols@, sym);
                assert(seq![sym] =~= literals(frame@, at as int, at + 1));
            }
            symbols.push(sym);
            state.last_length = 0;
            pos = pos + 1;
            proof {
                assert(symbols@ =~= before + literals(frame@, at as int, at + 1));
                assert(state@ == Memory { last: 0, ..was });
            }
        }
        if c.dist == 0 {
            no_match_run = no_match_run + 1;
            if no_match_run >= FAST_MODE_AFTER {
                fast = true;
            }
        } else {
            if fast {
                // A match resumes full matching.
                fast = false;
                no_match_run = 0;
            }
            let ghost ahead = symbols@;
            let ghost mid = state@;
            let ghost from = pos;
            let written = take_match(
                frame,
                pos,
                c.dist,
                c.length,
                &mut symbols,
                state,
                Ghost(full),
                Ghost(window as int),
                Ghost(p0),
                Ghost(g0),
                Ghost(g),
            );
            let ghost out = match_out(frame@, from as int, c.dist as int, c.length as int, mid);
            let ghost h = sym_run(full, window as int, p0, g0, symbols@)->Some_0.1;
            let stop: usize = pos + c.length;
            let mut seen: usize = c.seen;
            proof {
                if !written {
                    assert(literals(frame@, from as int, from as int) =~= Seq::<Symbol>::empty());
                }
            }
            while pos < stop
                invariant
                    start <= from <= pos <= stop <= end,
                    stop == from + c.length,
                    end == frame@.len(),
                    finder.wf(),
                    is_suffix(frame@, full),
                    delta == full.len() - frame@.len(),
                    p0 == delta + start,
                    lo == start,
                    small == (frame@.len() <= u32::MAX),
                    from <= seen <= stop,
                    pos < stop ==> seen >= pos,
                    pos >= seen ==> seen == pos,
                    small ==> finder.seen_since(f0, frame@, lo, seen as int),
                    sym_run(full, window as int, p0, g0, symbols@) == Some(
                        (
                            if written {
                                delta + stop
                            } else {
                                delta + pos
                            },
                            h,
                        ),
                    ),
                    written ==> symbols@ == ahead + out.0,
                    !written ==> symbols@ == ahead + literals(frame@, from as int, pos as int),
                decreases stop - pos,
            {
                if !written {
                    let sym = Symbol::Literal(frame[pos]);
                    let ghost s = symbols@;
                    proof {
                        assert(full.subrange(delta, full.len() as int)[pos as int]
                            == frame@[pos as int]);
                        lemma_sym_run_push(full, window as int, p0, g0, symbols@, sym);
                    }
                    symbols.push(sym);
                    assert(symbols@ =~= ahead + literals(frame@, from as int, pos + 1));
                }
                if pos >= seen {
                    let ghost f = *finder;
                    finder.insert(frame, pos);
                    proof {
                        if small {
                            finder.lemma_seen_since(f, f0, frame@, lo, pos as int);
                        }
                    }
                    seen = pos + 1;
                }
                pos = pos + 1;
            }
            assert(symbols@ == ahead + out.0);
        }
        proof {
            let longer = steps.push(step);
            assert(longer.drop_last() =~= steps);
            let out = step_out(frame@, step, was);
            assert(symbols@ =~= before + out.0);
            assert(state@ == out.1);
            steps = longer;
        }
    }
    symbols
}

} // verus!
