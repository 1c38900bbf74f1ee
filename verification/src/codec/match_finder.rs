//! Finding repeats. The tables only suggest where to look: every match that
//! is reported was compared byte by byte.

use crate::codec::matching::valid_match;
use vstd::prelude::*;

verus! {

/// Most bytes of history kept for long-range matches.
pub const LONG_RANGE_MAX: usize = 64 * 1024 * 1024;

/// Every how many bytes the long-range history is sampled.
pub const LONG_RANGE_STEP: usize = 16;

/// Shortest repeat the long-range search reports.
const LONG_RANGE_MIN: usize = 8;

const LONG_RANGE_TABLE: usize = 1024 * 1024;

pub const HASH_SIZE: usize = 65536;

/// Length of the match at `pos` against `distance` bytes back, capped at
/// `max_length`.
pub fn match_length_at(data: &[u8], pos: usize, distance: usize, max_length: usize) -> (l: usize)
    requires
        1 <= distance <= pos,
        pos + max_length <= data@.len(),
    ensures
        l <= max_length,
        forall|i: int| pos <= i < pos + l ==> #[trigger] data@[i] == data@[i - distance],
        l < max_length ==> data@[pos + l] != data@[pos + l - distance],
{
    let cand: usize = pos - distance;
    let n: usize = data.len();
    let mut l: usize = 0;
    while l < max_length && data[cand + l] == data[pos + l]
        invariant
            n == data@.len(),
            l <= max_length,
            cand == pos - distance,
            1 <= distance <= pos,
            pos + max_length <= data@.len(),
            forall|i: int| pos <= i < pos + l ==> #[trigger] data@[i] == data@[i - distance],
        decreases max_length - l,
    {
        l = l + 1;
    }
    l
}

/// Every run from index `from` on is a match at `pos`.
pub open spec fn runs_valid(
    data: Seq<u8>,
    pos: int,
    runs: Seq<(u32, u32)>,
    from: int,
    len_limit: int,
    max_distance: int,
) -> bool {
    forall|i: int|
        from <= i < runs.len() ==> (#[trigger] runs[i]).0 <= len_limit && valid_match(
            data,
            pos,
            runs[i].1 as int,
            runs[i].0 as int,
            max_distance,
        )
}

/// Chains of earlier positions with equal hashes, most recent first.
///
/// Positions are kept as stamps that grow with the stream, so the chains stay
/// valid while the frame slides over it.
pub struct MatchFinder {
    head: Vec<u32>,
    prev: Vec<u32>,
    mask: u32,
    base: u32,
}

proof fn lemma_mask(x: u32, m: u32)
    ensures
        x & m <= m,
{
    assert(x & m <= m) by (bit_vector);
}

impl MatchFinder {
    pub closed spec fn wf(&self) -> bool {
        &&& self.head@.len() == HASH_SIZE
        &&& self.prev@.len() == self.mask + 1
    }

    /// A finder for frames of up to `window` bytes.
    pub fn new(window: usize) -> (f: MatchFinder)
        ensures
            f.wf(),
            f.is_empty(),
    {
        let mut size: u32 = 4096;
        while (size as usize) < window && size <= 0x0200_0000
            invariant
                4096 <= size <= 0x0400_0000,
            decreases 0x0400_0000 - size,
        {
            size = size * 2;
        }
        MatchFinder {
            head: vec![0xFFFF_FFFFu32; HASH_SIZE],
            prev: vec![0u32; size as usize],
            mask: size - 1,
            base: 0,
        }
    }

    /// The mark of the position `pos` of the frame.
    pub closed spec fn mark(&self, pos: int) -> int {
        (self.base + pos) % 0x1_0000_0000
    }

    /// The mark of the latest position taken in whose four bytes hash to `h`.
    pub closed spec fn latest(&self, h: int) -> int {
        self.head@[h] as int
    }

    /// Nothing was taken in.
    pub open spec fn is_empty(&self) -> bool {
        self.mark(0) == 0 && forall|h: int| 0 <= h < HASH_SIZE ==> #[trigger] self.latest(h)
            == 0xffff_ffff
    }

    /// How far before `pos` the latest position with its hash lies.
    pub open spec fn nearest(&self, data: Seq<u8>, pos: int) -> int {
        (self.mark(pos) - self.latest(hash4(data, pos))) % 0x1_0000_0000
    }

    /// `pos` was taken in, where four bytes stand there.
    pub open spec fn has_taken(&self, before: &MatchFinder, data: Seq<u8>, pos: int) -> bool {
        &&& forall|p: int| #[trigger] self.mark(p) == before.mark(p)
        &&& forall|h: int|
            0 <= h < HASH_SIZE ==> #[trigger] self.latest(h) == if pos + 4 <= data.len() && h
                == hash4(data, pos) {
                before.mark(pos)
            } else {
                before.latest(h)
            }
    }

    /// Of the positions from `lo` to `hi`, the last with each hash is the
    /// latest taken in.
    pub open spec fn last_seen(&self, data: Seq<u8>, lo: int, hi: int) -> bool {
        forall|p: int|
            lo <= p < hi && p + 4 <= data.len() && #[trigger] no_later(data, p, hi) ==> self.latest(
                hash4(data, p),
            ) == self.mark(p)
    }

    /// The positions from `lo` to `hi`, and no others, were taken in since the
    /// finder was `before`.
    pub open spec fn seen_since(&self, before: MatchFinder, data: Seq<u8>, lo: int, hi: int) -> bool {
        &&& self.last_seen(data, lo, hi)
        &&& forall|p: int| #[trigger] self.mark(p) == before.mark(p)
        &&& forall|h: int|
            0 <= h < HASH_SIZE && none_hashed(data, lo, hi, h) ==> #[trigger] self.latest(h)
                == before.latest(h)
    }

    /// The frame moved on by `amount` bytes since the finder was `before`.
    pub open spec fn has_slid(&self, before: MatchFinder, amount: int) -> bool {
        &&& forall|h: int| 0 <= h < HASH_SIZE ==> #[trigger] self.latest(h) == before.latest(h)
        &&& forall|p: int| #[trigger] self.mark(p) == before.mark(p + amount)
    }

    /// One more position was taken in.
    pub proof fn lemma_seen_since(
        self,
        last: MatchFinder,
        before: MatchFinder,
        data: Seq<u8>,
        lo: int,
        hi: int,
    )
        requires
            last.seen_since(before, data, lo, hi),
            self.has_taken(&last, data, hi),
            lo <= hi,
        ensures
            self.seen_since(before, data, lo, hi + 1),
    {
        self.lemma_last_seen(last, data, lo, hi);
        assert forall|p: int| #[trigger] self.mark(p) == before.mark(p) by {
            assert(last.mark(p) == before.mark(p));
        }
        assert forall|h: int| 0 <= h < HASH_SIZE && none_hashed(data, lo, hi + 1, h) implies
            #[trigger] self.latest(h) == before.latest(h) by {
            assert(none_hashed(data, lo, hi, h)) by {
                assert forall|q: int| lo <= q < hi && q + 4 <= data.len() implies #[trigger] hash4(
                    data,
                    q,
                ) != h by {}
            }
            if hi + 4 <= data.len() {
                assert(hash4(data, hi) != h);
            }
            assert(last.latest(h) == before.latest(h));
        }
    }

    /// A position whose hash was not taken in since is nearest to what it was
    /// nearest to before.
    pub proof fn lemma_nearest_before(
        self,
        before: MatchFinder,
        data: Seq<u8>,
        lo: int,
        hi: int,
        pos: int,
    )
        requires
            self.seen_since(before, data, lo, hi),
            none_hashed(data, lo, hi, hash4(data, pos)),
        ensures
            self.nearest(data, pos) == before.nearest(data, pos),
    {
        lemma_hash4(data, pos);
        assert(self.mark(pos) == before.mark(pos));
        assert(self.latest(hash4(data, pos)) == before.latest(hash4(data, pos)));
    }

    /// One more position was taken in.
    pub proof fn lemma_last_seen(self, before: MatchFinder, data: Seq<u8>, lo: int, hi: int)
        requires
            before.last_seen(data, lo, hi),
            self.has_taken(&before, data, hi),
        ensures
            self.last_seen(data, lo, hi + 1),
    {
        assert forall|p: int|
            lo <= p < hi + 1 && p + 4 <= data.len() && #[trigger] no_later(
                data,
                p,
                hi + 1,
            ) implies self.latest(hash4(data, p)) == self.mark(p) by {
            lemma_hash4(data, p);
            assert(self.mark(p) == before.mark(p));
            if p < hi {
                assert(no_later(data, p, hi));
                if hi + 4 <= data.len() {
                    assert(hash4(data, hi) != hash4(data, p));
                }
            }
        }
    }

    /// The last position that hashes as `pos` does is the nearest one.
    pub proof fn lemma_nearest(self, data: Seq<u8>, lo: int, pos: int, p: int)
        requires
            self.last_seen(data, lo, pos),
            lo <= p < pos,
            pos - p < 0x1_0000_0000,
            pos + 4 <= data.len(),
            hash4(data, p) == hash4(data, pos),
            no_later(data, p, pos),
        ensures
            self.nearest(data, pos) == pos - p,
    {
        let b = self.base as int;
        assert(((b + pos) % 0x1_0000_0000 - (b + p) % 0x1_0000_0000) % 0x1_0000_0000 == pos - p)
            by (nonlinear_arith)
            requires
                0 < pos - p < 0x1_0000_0000,
        ;
    }

    /// How many positions the chains reach back.
    pub fn reach(&self) -> (n: usize)
        ensures
            n == self.chain_reach(),
    {
        self.prev.len()
    }

    /// How many positions the chains reach back.
    pub closed spec fn chain_reach(&self) -> int {
        self.prev@.len() as int
    }

    /// Forget everything; the next frame starts afresh.
    pub fn clear(&mut self)
        requires
            old(self).wf(),
        ensures
            final(self).wf(),
            final(self).is_empty(),
    {
        self.base = 0;
        self.head = vec![0xFFFF_FFFFu32; HASH_SIZE];
    }

    /// The frame moved on by `amount` bytes.
    pub fn slide(&mut self, amount: usize)
        requires
            old(self).wf(),
        ensures
            final(self).wf(),
            amount <= u32::MAX ==> final(self).has_slid(*old(self), amount as int),
    {
        self.base = self.base.wrapping_add(amount as u32);
    }

    fn hash(data: &[u8], pos: usize) -> (h: usize)
        requires
            pos + 4 <= data@.len(),
        ensures
            h == hash4(data@, pos as int),
            h < HASH_SIZE,
    {
        proof {
            reveal(hash4);
        }
        let v: u32 = data[pos] as u32 + data[pos + 1] as u32 * 256 + data[pos + 2] as u32 * 65536
            + data[pos + 3] as u32 * 16777216;
        (v.wrapping_mul(2654435761) / 65536) as usize
    }

    /// Take `pos` into the chains, where four bytes stand there.
    pub fn insert(&mut self, data: &[u8], pos: usize)
        requires
            old(self).wf(),
            pos <= data@.len(),
        ensures
            final(self).wf(),
            pos <= u32::MAX ==> final(self).has_taken(&*old(self), data@, pos as int),
    {
        if data.len() - pos < 4 {
            return;
        }
        let h: usize = Self::hash(data, pos);
        let stamp: u32 = self.base.wrapping_add(pos as u32);
        let slot: u32 = stamp & self.mask;
        proof {
            lemma_mask(stamp, self.mask);
        }
        self.prev.set(slot as usize, self.head[h]);
        self.head.set(h, stamp);
    }

    /// Report matches at `pos`, each longer than the one before and all
    /// longer than three bytes, looking at up to `chain_len` candidates. Also
    /// takes `pos` into the chains.
    pub fn matches(
        &mut self,
        data: &[u8],
        pos: usize,
        len_limit: usize,
        max_distance: usize,
        chain_len: usize,
        runs: &mut Vec<(u32, u32)>,
    )
        requires
            old(self).wf(),
            pos + len_limit <= data@.len(),
            max_distance <= pos,
            len_limit <= 0xFFFF,
        ensures
            final(self).wf(),
            final(runs)@.len() >= old(runs)@.len(),
            final(runs)@.subrange(0, old(runs)@.len() as int) =~= old(runs)@,
            runs_valid(
                data@,
                pos as int,
                final(runs)@,
                old(runs)@.len() as int,
                len_limit as int,
                max_distance as int,
            ),
            forall|i: int|
                old(runs)@.len() <= i < final(runs)@.len() ==> (#[trigger] final(runs)@[i]).0
                    <= final(runs)@.last().0,
            pos <= u32::MAX ==> final(self).has_taken(&*old(self), data@, pos as int),
            pos <= u32::MAX && chain_len > 0 ==> tries_nearest(
                data@,
                pos as int,
                old(self).nearest(data@, pos as int),
                len_limit as int,
                max_distance as int,
                final(runs)@.skip(old(runs)@.len() as int),
            ),
    {
        if data.len() - pos < 4 {
            return;
        }
        let h: usize = Self::hash(data, pos);
        let stamp: u32 = self.base.wrapping_add(pos as u32);
        let mut cand: u32 = self.head[h];
        let mut best: usize = 3;
        let mut seen: u32 = 0;
        let mut depth: usize = chain_len;
        let n: usize = data.len();
        let ghost nearest = self.nearest(data@, pos as int);
        let ghost fresh = runs@.skip(old(runs)@.len() as int);
        assert(fresh =~= Seq::<(u32, u32)>::empty());
        while depth > 0 && best < len_limit
            invariant
                n == data@.len(),
                self.wf(),
                *self == *old(self),
                depth <= chain_len,
                best >= 3,
                pos <= u32::MAX ==> stamp == self.mark(pos as int),
                h == hash4(data@, pos as int),
                nearest == self.nearest(data@, pos as int),
                depth == chain_len && pos <= u32::MAX ==> cand == self.latest(h as int) && best == 3
                    && seen == 0 && runs@.len() == old(runs)@.len(),
                depth < chain_len && pos <= u32::MAX ==> tries_nearest(
                    data@,
                    pos as int,
                    nearest,
                    len_limit as int,
                    max_distance as int,
                    runs@.skip(old(runs)@.len() as int),
                ),
                pos + len_limit <= data@.len(),
                max_distance <= pos,
                len_limit <= 0xFFFF,
                runs@.len() >= old(runs)@.len(),
                runs@.len() > old(runs)@.len() ==> runs@.last().0 == best,
                forall|i: int|
                    old(runs)@.len() <= i < runs@.len() ==> (#[trigger] runs@[i]).0 <= best,
                runs@.subrange(0, old(runs)@.len() as int) =~= old(runs)@,
                runs_valid(
                    data@,
                    pos as int,
                    runs@,
                    old(runs)@.len() as int,
                    len_limit as int,
                    max_distance as int,
                ),
            decreases depth,
        {
            let dist: u32 = stamp.wrapping_sub(cand);
            let ghost earlier = runs@.skip(old(runs)@.len() as int);
            let ghost at_first = depth == chain_len;
            let ghost mut agreed: int = 0;
            if dist <= seen || dist as usize > max_distance {
                depth = 0;
            } else {
                seen = dist;
                let d: usize = dist as usize;
                if data[pos + best] == data[pos + best - d] {
                    let l: usize = match_length_at(data, pos, d, len_limit);
                    proof {
                        agreed = l as int;
                    }
                    if l > best {
                        assert(valid_match(
                            data@,
                            pos as int,
                            d as int,
                            l as int,
                            max_distance as int,
                        ));
                        runs.push((l as u32, dist));
                        best = l;
                    }
                }
                let slot: u32 = cand & self.mask;
                proof {
                    lemma_mask(cand, self.mask);
                }
                cand = self.prev[slot as usize];
                depth = depth - 1;
            }
            proof {
                let now = runs@.skip(old(runs)@.len() as int);
                if at_first && pos <= u32::MAX {
                    assert(dist as int == nearest);
                    assert forall|l: int|
                        #![trigger agrees_for(data@, pos as int, nearest, l)]
                        1 <= nearest <= max_distance && 4 <= l <= len_limit && agrees_for(
                            data@,
                            pos as int,
                            nearest,
                            l,
                        ) implies now.len() > 0 && now[0].0 >= l && now[0].1 == nearest by {
                        assert(data@[pos + 3] == data@[pos + 3 - nearest]);
                        if agreed < l {
                            assert(data@[pos + agreed] == data@[pos + agreed - nearest]);
                        }
                        assert(now =~= seq![(agreed as u32, dist)]);
                    }
                } else if pos <= u32::MAX {
                    assert(forall|i: int| 0 <= i < earlier.len() ==> now[i] == earlier[i]);
                }
            }
        }
        let slot: u32 = stamp & self.mask;
        proof {
            lemma_mask(stamp, self.mask);
        }
        self.prev.set(slot as usize, self.head[h]);
        self.head.set(h, stamp);
    }

    /// The longest match at `pos`, remembered distances included: its
    /// distance and its length, both zero where there is none. Also takes
    /// `pos` into the chains.
    pub fn find_match_cached(
        &mut self,
        data: &[u8],
        pos: usize,
        len_limit: usize,
        max_distance: usize,
        chain_len: usize,
        dist_cache: &[u32; 4],
    ) -> (r: (usize, usize))
        requires
            old(self).wf(),
            pos + len_limit <= data@.len(),
            max_distance <= pos,
            len_limit <= 0xFFFF,
        ensures
            final(self).wf(),
            r.0 == 0 <==> r.1 == 0,
            r.1 <= len_limit,
            r.0 > 0 ==> valid_match(
                data@,
                pos as int,
                r.0 as int,
                r.1 as int,
                max_distance as int,
            ) && r.1 >= 2,
            tries_cache(
                data@,
                pos as int,
                dist_cache@,
                4,
                len_limit as int,
                max_distance as int,
                r.1 as int,
            ),
            pos <= u32::MAX ==> final(self).has_taken(&*old(self), data@, pos as int),
            pos <= u32::MAX && chain_len > 0 ==> beats_nearest(
                data@,
                pos as int,
                old(self).nearest(data@, pos as int),
                len_limit as int,
                max_distance as int,
                r.1 as int,
            ),
    {
        let mut best_dist: usize = 0;
        let mut best_len: usize = 0;
        let mut i: usize = 0;
        while i < 4
            invariant
                pos + len_limit <= data@.len(),
                max_distance <= pos,
                best_dist == 0 <==> best_len == 0,
                best_len <= len_limit,
                best_dist > 0 ==> valid_match(
                    data@,
                    pos as int,
                    best_dist as int,
                    best_len as int,
                    max_distance as int,
                ) && best_len >= 2,
                tries_cache(
                    data@,
                    pos as int,
                    dist_cache@,
                    i as int,
                    len_limit as int,
                    max_distance as int,
                    best_len as int,
                ),
            decreases 4 - i,
        {
            let ghost before = best_len;
            let d: usize = dist_cache[i] as usize;
            if d > 0 && d <= max_distance {
                let l: usize = match_length_at(data, pos, d, len_limit);
                if l >= 2 && l > best_len {
                    best_len = l;
                    best_dist = d;
                }
                proof {
                    assert forall|k: int|
                        #![trigger agrees_for(data@, pos as int, d as int, k)]
                        2 <= k <= len_limit && agrees_for(
                            data@,
                            pos as int,
                            d as int,
                            k,
                        ) implies best_len >= k by {
                        if l < k {
                            assert(data@[pos + l] == data@[pos + l - d]);
                        }
                    }
                }
            }
            i = i + 1;
        }
        let mut runs: Vec<(u32, u32)> = Vec::new();
        self.matches(data, pos, len_limit, max_distance, chain_len, &mut runs);
        if runs.len() > 0 {
            let (l, d) = runs[runs.len() - 1];
            assert(runs@[runs@.len() - 1] == (l, d));
            if l as usize > best_len && l >= 2 {
                best_len = l as usize;
                best_dist = d as usize;
            }
        }
        (best_dist, best_len)
    }
}

/// The hash of the eight bytes at `pos`.
#[verifier::opaque]
pub open spec fn hash8(data: Seq<u8>, pos: int) -> int {
    let lo = data[pos] + data[pos + 1] * 256 + data[pos + 2] * 65536 + data[pos + 3] * 16777216;
    let hi = data[pos + 4] + data[pos + 5] * 256 + data[pos + 6] * 65536 + data[pos + 7] * 16777216;
    (((hi * 0x1_0000_0000 + lo) * 0x9E37_79B9_7F4A_7C15) % 0x1_0000_0000_0000_0000)
        / 0x1000_0000_0000 % 0x10_0000
}

proof fn lemma_hash8(data: Seq<u8>, pos: int)
    ensures
        0 <= hash8(data, pos) < LONG_RANGE_TABLE,
{
    reveal(hash8);
}

/// The hash of the four bytes at `pos`.
#[verifier::opaque]
pub open spec fn hash4(data: Seq<u8>, pos: int) -> int {
    let v = data[pos] + data[pos + 1] * 256 + data[pos + 2] * 65536 + data[pos + 3] * 16777216;
    ((v * 2654435761) % 0x1_0000_0000) / 65536
}

proof fn lemma_hash4(data: Seq<u8>, pos: int)
    ensures
        0 <= hash4(data, pos) < HASH_SIZE,
{
    reveal(hash4);
}

/// Where four bytes and more repeat at the distance `nearest`, the first run
/// reported is that one, as long as the bytes agree.
pub open spec fn tries_nearest(
    data: Seq<u8>,
    pos: int,
    nearest: int,
    len_limit: int,
    max_distance: int,
    runs: Seq<(u32, u32)>,
) -> bool {
    forall|l: int|
        #![trigger agrees_for(data, pos, nearest, l)]
        1 <= nearest <= max_distance && 4 <= l <= len_limit && agrees_for(data, pos, nearest, l)
            ==> runs.len() > 0 && runs[0].0 >= l && runs[0].1 == nearest
}

/// Where two bytes and more repeat at one of the first `k` remembered
/// distances, `found` is as long.
pub open spec fn tries_cache(
    data: Seq<u8>,
    pos: int,
    cache: Seq<u32>,
    k: int,
    len_limit: int,
    max_distance: int,
    found: int,
) -> bool {
    forall|i: int, l: int|
        #![trigger agrees_for(data, pos, cache[i] as int, l)]
        0 <= i < k && 1 <= cache[i] <= max_distance && 2 <= l <= len_limit && agrees_for(
            data,
            pos,
            cache[i] as int,
            l,
        ) ==> found >= l
}

/// Where four bytes and more repeat at the distance `nearest`, `found` is as
/// long.
pub open spec fn beats_nearest(
    data: Seq<u8>,
    pos: int,
    nearest: int,
    len_limit: int,
    max_distance: int,
    found: int,
) -> bool {
    forall|l: int|
        #![trigger agrees_for(data, pos, nearest, l)]
        1 <= nearest <= max_distance && 4 <= l <= len_limit && agrees_for(data, pos, nearest, l)
            ==> found >= l
}

/// No position between `p` and `hi` hashes as `p` does.
pub open spec fn no_later(data: Seq<u8>, p: int, hi: int) -> bool {
    forall|q: int|
        p < q < hi && q + 4 <= data.len() ==> #[trigger] hash4(data, q) != hash4(data, p)
}

/// No position from `lo` to `hi` hashes to `h`.
pub open spec fn none_hashed(data: Seq<u8>, lo: int, hi: int, h: int) -> bool {
    forall|q: int| lo <= q < hi && q + 4 <= data.len() ==> #[trigger] hash4(data, q) != h
}

/// The `l` bytes at `pos` repeat those `d` before.
pub open spec fn agrees_for(data: Seq<u8>, pos: int, d: int, l: int) -> bool {
    forall|i: int| pos <= i < pos + l ==> #[trigger] data[i] == data[i - d]
}

/// The `len` bytes of `data` at `off` stand in `hist`, `dist` places before
/// where `data` would continue it if it began at `anchor`.
pub open spec fn history_match(
    hist: Seq<u8>,
    data: Seq<u8>,
    off: int,
    anchor: int,
    dist: int,
    len: int,
) -> bool {
    let k = anchor + off - dist;
    &&& dist >= 1
    &&& 0 <= k
    &&& k + len <= hist.len()
    &&& 0 <= off
    &&& off + len <= data.len()
    &&& forall|i: int| 0 <= i < len ==> #[trigger] data[off + i] == hist[k + i]
}

/// A history continued with `data`: all of it, or its last half of what is
/// kept at most once there is too much.
pub open spec fn history_after(hist: Seq<u8>, data: Seq<u8>) -> Seq<u8> {
    let all = hist + data;
    if all.len() <= LONG_RANGE_MAX {
        all
    } else {
        all.subrange(all.len() - LONG_RANGE_MAX / 2, all.len() as int)
    }
}

/// A continued history is the end of what it continues, and as long as half of
/// what is kept at most, or all of it.
pub proof fn lemma_history_after(hist: Seq<u8>, data: Seq<u8>)
    ensures
        is_suffix(history_after(hist, data), hist + data),
        history_after(hist, data).len() <= LONG_RANGE_MAX,
        history_after(hist, data).len() >= LONG_RANGE_MAX / 2 || history_after(hist, data) == hist
            + data,
{
    let all = hist + data;
    assert(all.subrange(0, all.len() as int) =~= all);
}

/// The latest of the first `k` sampled positions of a history, which are every
/// sixteenth, whose eight bytes hash to `h`; -1 if none does.
pub open spec fn latest_sample(hist: Seq<u8>, h: int, k: nat) -> int
    decreases k,
{
    if k == 0 {
        -1
    } else if hash8(hist, 16 * (k - 1)) == h {
        16 * (k - 1)
    } else {
        latest_sample(hist, h, (k - 1) as nat)
    }
}

/// How many positions of a history are sampled: those with eight bytes behind
/// them.
pub open spec fn sample_count(hist: Seq<u8>) -> nat {
    if hist.len() < 8 {
        0
    } else {
        ((hist.len() - 8) / 16 + 1) as nat
    }
}

/// The latest sampled position of a history whose eight bytes hash to `h`; -1
/// if none does.
pub open spec fn sample_of(hist: Seq<u8>, h: int) -> int {
    latest_sample(hist, h, sample_count(hist))
}

/// Samples stay as more bytes follow.
proof fn lemma_samples_stay(a: Seq<u8>, b: Seq<u8>, h: int, k: nat)
    requires
        k > 0 ==> 16 * (k - 1) + 8 <= a.len(),
    ensures
        latest_sample(a + b, h, k) == latest_sample(a, h, k),
    decreases k,
{
    if k > 0 {
        assert(hash8(a + b, 16 * (k - 1)) == hash8(a, 16 * (k - 1))) by {
            reveal(hash8);
        }
        lemma_samples_stay(a, b, h, (k - 1) as nat);
    }
}

/// The latest sample is no earlier than any with the same hash, and within the
/// samples looked at.
proof fn lemma_latest_sample(hist: Seq<u8>, h: int, k: nat)
    ensures
        -1 <= latest_sample(hist, h, k) <= 16 * (k - 1) || latest_sample(hist, h, k) == -1,
        forall|i: int|
            0 <= i < k && #[trigger] hash8(hist, 16 * i) == h ==> latest_sample(hist, h, k) >= 16
                * i,
    decreases k,
{
    if k > 0 {
        lemma_latest_sample(hist, h, (k - 1) as nat);
    }
}

/// Sampled long-range history: recent input of which every sixteenth position
/// is indexed.
pub struct LongRange {
    hist: Vec<u8>,
    table: Vec<u32>,
    indexed: usize,
    window: usize,
}

impl LongRange {
    pub closed spec fn wf(&self) -> bool {
        &&& self.table@.len() == LONG_RANGE_TABLE
        &&& self.hist@.len() <= LONG_RANGE_MAX
        &&& self.indexed <= self.hist@.len() + LONG_RANGE_STEP
        &&& forall|i: int| 0 <= i < LONG_RANGE_TABLE ==> #[trigger] self.table@[i] <= self.hist@.len()
        &&& self.samples_to(self.indexed as int)
        &&& self.indexed + 8 > self.hist@.len()
    }

    /// Of the sampled positions before `end` the latest with each hash is
    /// indexed.
    closed spec fn samples_to(&self, end: int) -> bool {
        &&& end % (LONG_RANGE_STEP as int) == 0
        &&& end > 0 ==> end - LONG_RANGE_STEP + 8 <= self.hist@.len()
        &&& forall|h: int|
            0 <= h < LONG_RANGE_TABLE ==> #[trigger] self.table@[h] == latest_sample(
                self.hist@,
                h,
                (end / 16) as nat,
            ) + 1
    }

    /// The index holds the history's samples.
    proof fn lemma_indexed(&self, h: int)
        requires
            self.wf(),
            0 <= h < LONG_RANGE_TABLE,
        ensures
            self.table@[h] == sample_of(self.hist@, h) + 1,
    {
        let n = self.hist@.len() as int;
        let end = self.indexed as int;
        if n < 8 {
            assert(end == 0);
        } else {
            assert(end / 16 == (n - 8) / 16 + 1);
        }
    }

    /// The history kept.
    pub closed spec fn history(&self) -> Seq<u8> {
        self.hist@
    }

    /// The longest distance reported.
    pub closed spec fn max_distance(&self) -> int {
        self.window as int
    }

    /// An empty history for a dictionary of `window` bytes.
    pub fn new(window: usize) -> (l: LongRange)
        ensures
            l.wf(),
            l.history() == Seq::<u8>::empty(),
            l.max_distance() == window,
    {
        LongRange {
            hist: Vec::new(),
            table: vec![0u32; LONG_RANGE_TABLE],
            indexed: 0,
            window,
        }
    }

    /// Forget the history.
    pub fn reset(&mut self)
        requires
            old(self).wf(),
        ensures
            final(self).wf(),
            final(self).history() == Seq::<u8>::empty(),
            final(self).max_distance() == old(self).max_distance(),
    {
        self.hist = Vec::new();
        self.table = vec![0u32; LONG_RANGE_TABLE];
        self.indexed = 0;
    }

    /// Report distances up to `window` from now on.
    pub fn set_window(&mut self, window: usize)
        requires
            old(self).wf(),
        ensures
            final(self).wf(),
            final(self).history() == old(self).history(),
            final(self).max_distance() == window,
    {
        self.window = window;
    }

    /// The longest distance reported.
    pub fn window(&self) -> (w: usize)
        ensures
            w == self.max_distance(),
    {
        self.window
    }

    /// How many bytes of history are kept.
    pub fn hist_len(&self) -> (n: usize)
        requires
            self.wf(),
        ensures
            n == self.history().len(),
            n <= LONG_RANGE_MAX,
    {
        self.hist.len()
    }

    /// The history kept.
    pub fn hist_bytes(&self) -> (b: &[u8])
        ensures
            b@ == self.history(),
    {
        self.hist.as_slice()
    }

    fn hash(data: &[u8], pos: usize) -> (h: usize)
        requires
            pos + 8 <= data@.len(),
        ensures
            h == hash8(data@, pos as int),
            h < LONG_RANGE_TABLE,
    {
        proof {
            reveal(hash8);
        }
        let lo: u64 = data[pos] as u64 + data[pos + 1] as u64 * 256 + data[pos + 2] as u64 * 65536
            + data[pos + 3] as u64 * 16777216;
        let hi: u64 = data[pos + 4] as u64 + data[pos + 5] as u64 * 256 + data[pos + 6] as u64
            * 65536 + data[pos + 7] as u64 * 16777216;
        let m: u64 = (hi * 0x1_0000_0000 + lo).wrapping_mul(0x9E37_79B9_7F4A_7C15);
        (m / 0x1000_0000_0000 % 0x10_0000) as usize
    }

    /// The match reported is that of the sampled position with the hash of
    /// the bytes at `off`, as long as the bytes agree; and it is reported
    /// where eight bytes do, at a distance that is wanted.
    pub open spec fn takes_sample(
        &self,
        data: Seq<u8>,
        off: int,
        anchor: int,
        min_dist: int,
        max_len: int,
        r: Option<(u32, usize)>,
    ) -> bool {
        let sample = sample_of(self.history(), hash8(data, off));
        let dist = anchor + off - sample;
        &&& r matches Some((d, _)) ==> sample >= 0 && d == dist
        &&& forall|l: int|
            #![trigger history_match(self.history(), data, off, anchor, dist, l)]
            sample >= 0 && min_dist <= dist <= self.max_distance() && dist
                <= u32::MAX && 8 <= l <= max_len && history_match(
                self.history(),
                data,
                off,
                anchor,
                dist,
                l,
            ) ==> (r matches Some((d, n)) && d == dist && n >= l)
    }

    /// Every sixteenth position of the history is sampled, and of those with
    /// one hash the latest is kept.
    pub proof fn lemma_samples(&self, p: int)
        requires
            self.wf(),
            0 <= p,
            p % 16 == 0,
            p + 8 <= self.history().len(),
        ensures
            sample_of(self.history(), hash8(self.history(), p)) >= p,
    {
        let hist = self.history();
        lemma_latest_sample(hist, hash8(hist, p), sample_count(hist));
        let i = p / 16;
        assert(p == 16 * i);
        assert(hash8(hist, 16 * i) == hash8(hist, p));
    }

    /// Index the sampled positions that were not indexed yet.
    fn index_new(&mut self)
        requires
            old(self).table@.len() == LONG_RANGE_TABLE,
            old(self).hist@.len() <= LONG_RANGE_MAX,
            old(self).indexed <= old(self).hist@.len() + LONG_RANGE_STEP,
            forall|i: int|
                0 <= i < LONG_RANGE_TABLE ==> #[trigger] old(self).table@[i] <= old(
                    self,
                ).hist@.len(),
            old(self).samples_to(old(self).indexed as int),
        ensures
            final(self).wf(),
            final(self).hist@ == old(self).hist@,
            final(self).window == old(self).window,
    {
        while self.indexed + 8 <= self.hist.len()
            invariant
                self.table@.len() == LONG_RANGE_TABLE,
                self.hist@.len() <= LONG_RANGE_MAX,
                self.indexed <= self.hist@.len() + LONG_RANGE_STEP,
                forall|i: int|
                    0 <= i < LONG_RANGE_TABLE ==> #[trigger] self.table@[i] <= self.hist@.len(),
                self.samples_to(self.indexed as int),
                self.hist@ == old(self).hist@,
                self.window == old(self).window,
            decreases self.hist@.len() + LONG_RANGE_STEP - self.indexed,
        {
            let h: usize = Self::hash(self.hist.as_slice(), self.indexed);
            let ghost before = self.table@;
            let ghost at = self.indexed as int;
            self.table.set(h, self.indexed as u32 + 1);
            self.indexed = self.indexed + LONG_RANGE_STEP;
            proof {
                assert(self.indexed as int / 16 == at / 16 + 1);
                assert(16 * (at / 16) == at);
                assert forall|j: int| 0 <= j < LONG_RANGE_TABLE implies #[trigger] self.table@[j]
                    == latest_sample(self.hist@, j, (self.indexed as int / 16) as nat) + 1 by {
                    if j != h {
                        assert(self.table@[j] == before[j]);
                    }
                }
            }
        }
    }

    /// Continue the history with `data`; the oldest bytes drop out once there
    /// are too many.
    pub fn push(&mut self, data: &[u8])
        requires
            old(self).wf(),
        ensures
            final(self).wf(),
            final(self).max_distance() == old(self).max_distance(),
            final(self).history() == history_after(old(self).history(), data@),
    {
        let ghost all = self.hist@ + data@;
        let n: usize = data.len();
        if n <= LONG_RANGE_MAX && self.hist.len() <= LONG_RANGE_MAX - n {
            let ghost old_hist = self.hist@;
            self.hist.extend_from_slice(data);
            assert(self.hist@ =~= all);
            assert(all.subrange(0, all.len() as int) =~= all);
            proof {
                let end = self.indexed as int;
                assert forall|h: int| 0 <= h < LONG_RANGE_TABLE implies #[trigger] self.table@[h]
                    == latest_sample(self.hist@, h, (end / 16) as nat) + 1 by {
                    assert(16 * (end / 16) == end);
                    lemma_samples_stay(old_hist, data@, h, (end / 16) as nat);
                }
            }
            self.index_new();
        } else {
            let half: usize = LONG_RANGE_MAX / 2;
            let mut kept: Vec<u8> = Vec::new();
            if n >= half {
                let from: usize = n - half;
                kept.extend_from_slice(vstd::slice::slice_subrange(data, from, n));
                assert(kept@ =~= all.subrange(all.len() - half, all.len() as int));
            } else {
                let want: usize = half - n;
                let old_len: usize = self.hist.len();
                let from: usize = old_len - want;
                kept.extend_from_slice(
                    vstd::slice::slice_subrange(self.hist.as_slice(), from, old_len),
                );
                kept.extend_from_slice(data);
                assert(kept@ =~= all.subrange(all.len() - half, all.len() as int));
            }
            self.hist = kept;
            self.table = vec![0u32; LONG_RANGE_TABLE];
            self.indexed = 0;
            self.index_new();
        }
    }

    /// A match of the bytes at `off` in the history, `data` continuing it.
    pub fn find(&self, data: &[u8], off: usize, min_dist: usize, max_len: usize) -> (r: Option<
        (u32, usize),
    >)
        requires
            self.wf(),
            off <= data@.len(),
            min_dist >= 1,
        ensures
            match r {
                Some((d, l)) => history_match(
                    self.history(),
                    data@,
                    off as int,
                    self.history().len() as int,
                    d as int,
                    l as int,
                ) && min_dist <= d <= self.max_distance() && 8 <= l <= max_len,
                None => true,
            },
            self.takes_sample(
                data@,
                off as int,
                self.history().len() as int,
                min_dist as int,
                max_len as int,
                r,
            ),
    {
        self.find_from(data, off, self.hist.len(), min_dist, max_len)
    }

    /// A match of the bytes at `off` in the history, where `data` starts at
    /// history position `anchor`.
    pub fn find_from(
        &self,
        data: &[u8],
        off: usize,
        anchor: usize,
        min_dist: usize,
        max_len: usize,
    ) -> (r: Option<(u32, usize)>)
        requires
            self.wf(),
            off <= data@.len(),
            anchor <= self.history().len(),
            min_dist >= 1,
        ensures
            match r {
                Some((d, l)) => history_match(
                    self.history(),
                    data@,
                    off as int,
                    anchor as int,
                    d as int,
                    l as int,
                ) && min_dist <= d <= self.max_distance() && 8 <= l <= max_len,
                None => true,
            },
            self.takes_sample(
                data@,
                off as int,
                anchor as int,
                min_dist as int,
                max_len as int,
                r,
            ),
    {
        if data.len() - off < LONG_RANGE_MIN || max_len < LONG_RANGE_MIN {
            return None;
        }
        let slot: u32 = self.table[Self::hash(data, off)];
        proof {
            lemma_hash8(data@, off as int);
            self.lemma_indexed(hash8(data@, off as int));
        }
        if slot == 0 {
            return None;
        }
        let idx: usize = slot as usize - 1;
        let pos: u128 = anchor as u128 + off as u128;
        if idx as u128 >= pos {
            return None;
        }
        let dist: u128 = pos - idx as u128;
        if dist < min_dist as u128 || dist > self.window as u128 || dist > 0xFFFF_FFFF {
            return None;
        }
        let mut limit: usize = data.len() - off;
        if max_len < limit {
            limit = max_len;
        }
        if self.hist.len() - idx < limit {
            limit = self.hist.len() - idx;
        }
        let mut l: usize = 0;
        let n: usize = data.len();
        while l < limit && self.hist[idx + l] == data[off + l]
            invariant
                n == data@.len(),
                self.wf(),
                l <= limit,
                off + limit <= data@.len(),
                idx + limit <= self.hist@.len(),
                forall|i: int| 0 <= i < l ==> #[trigger] data@[off + i] == self.hist@[idx + i],
            decreases limit - l,
        {
            l = l + 1;
        }
        proof {
            let d = dist as int;
            assert forall|k: int|
                #![trigger history_match(self.history(), data@, off as int, anchor as int, d, k)]
                8 <= k <= max_len && history_match(
                    self.history(),
                    data@,
                    off as int,
                    anchor as int,
                    d,
                    k,
                ) implies l >= k by {
                if l < k {
                    assert(data@[off + l] == self.hist@[idx + l]);
                }
            }
        }
        if l < LONG_RANGE_MIN {
            return None;
        }
        Some((dist as u32, l))
    }
}

/// `a` is the end of `b`.
pub open spec fn is_suffix(a: Seq<u8>, b: Seq<u8>) -> bool {
    a.len() <= b.len() && b.subrange(b.len() - a.len(), b.len() as int) =~= a
}

} // verus!
