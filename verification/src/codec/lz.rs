//! What the symbols of a stream do: the decoder as a state machine.

use crate::codec::slots::spec_length_bonus;
use crate::codec::symbols::{symbol_bounded, Symbol};
use crate::codec::window::{copied, lemma_copied_len, SlidingWindow};
use vstd::prelude::*;

verus! {

/// How many distances the decoder remembers.
pub const DIST_CACHE_SIZE: usize = 4;

/// An output filter and the stream positions it covers.
#[derive(Clone, Copy, Debug, PartialEq, Eq, Structural)]
pub struct FilterRegion {
    pub filter_type: u8,
    pub block_start: u64,
    pub block_length: u64,
    pub channels: u8,
}

/// What the decoder remembers between symbols.
pub ghost struct Lz {
    /// Everything produced so far.
    pub out: Seq<u8>,
    /// The last four distances, most recent first; zero where there is none.
    pub cache: Seq<u64>,
    /// The length of the last match.
    pub last: u32,
    /// The filters announced so far.
    pub filters: Seq<FilterRegion>,
}

/// The remembered distances after a new one.
pub open spec fn cache_pushed(c: Seq<u64>, v: u64) -> Seq<u64> {
    seq![v, c[0], c[1], c[2]]
}

/// The remembered distances after entry `i` was used.
pub open spec fn cache_touched(c: Seq<u64>, i: int) -> Seq<u64> {
    if i == 0 {
        c
    } else if i == 1 {
        seq![c[1], c[0], c[2], c[3]]
    } else if i == 2 {
        seq![c[2], c[0], c[1], c[3]]
    } else {
        seq![c[3], c[0], c[1], c[2]]
    }
}

/// The decoder's state after one symbol, with a window of `n` bytes.
pub open spec fn apply_symbol(z: Lz, n: int, sym: Symbol) -> Lz {
    match sym {
        Symbol::Literal(b) => Lz { out: z.out.push(b), ..z },
        Symbol::Match { distance, length } => {
            let l = length + spec_length_bonus(distance as int);
            Lz {
                out: copied(z.out, n, distance as int, l as nat),
                cache: cache_pushed(z.cache, distance),
                last: l as u32,
                ..z
            }
        },
        Symbol::CacheRef { index, length } => {
            Lz {
                out: copied(z.out, n, z.cache[index as int] as int, length as nat),
                cache: cache_touched(z.cache, index as int),
                last: length,
                ..z
            }
        },
        Symbol::Repeat => {
            if z.last > 0 && z.cache[0] > 0 {
                Lz { out: copied(z.out, n, z.cache[0] as int, z.last as nat), ..z }
            } else {
                z
            }
        },
        Symbol::Filter { block_start, block_length, filter_type, channels } => {
            Lz {
                filters: z.filters.push(
                    FilterRegion {
                        filter_type,
                        block_start: (z.out.len() + block_start) as u64,
                        block_length: block_length as u64,
                        channels,
                    },
                ),
                ..z
            }
        },
    }
}

/// A state the decoder can be in.
pub open spec fn lz_ok(z: Lz) -> bool {
    z.cache.len() == 4 && z.last <= 4100
}

/// Output only grows, by at most one match per symbol.
pub proof fn lemma_apply_symbol(z: Lz, n: int, sym: Symbol)
    requires
        lz_ok(z),
        symbol_bounded(sym),
    ensures
        lz_ok(apply_symbol(z, n, sym)),
        z.out.len() <= apply_symbol(z, n, sym).out.len() <= z.out.len() + 4100,
        apply_symbol(z, n, sym).out.subrange(0, z.out.len() as int) =~= z.out,
        apply_symbol(z, n, sym).filters.len() <= z.filters.len() + 1,
{
    match sym {
        Symbol::Match { distance, length } => {
            lemma_copied_len(
                z.out,
                n,
                distance as int,
                length as nat + spec_length_bonus(distance as int),
            );
        },
        Symbol::CacheRef { index, length } => {
            lemma_copied_len(z.out, n, z.cache[index as int] as int, length as nat);
        },
        Symbol::Repeat => {
            lemma_copied_len(z.out, n, z.cache[0] as int, z.last as nat);
        },
        _ => {},
    }
}

/// Output only grows, whatever the symbol.
pub proof fn lemma_output_grows(z: Lz, n: int, sym: Symbol)
    ensures
        z.out.len() <= apply_symbol(z, n, sym).out.len(),
{
    match sym {
        Symbol::Match { distance, length } => {
            lemma_copied_len(
                z.out,
                n,
                distance as int,
                (length + spec_length_bonus(distance as int)) as nat,
            );
        },
        Symbol::CacheRef { index, length } => {
            lemma_copied_len(z.out, n, z.cache[index as int] as int, length as nat);
        },
        Symbol::Repeat => {
            lemma_copied_len(z.out, n, z.cache[0] as int, z.last as nat);
        },
        _ => {},
    }
}

/// The executable side of the decoder's state.
pub struct LzCore {
    pub window: SlidingWindow,
    pub dist_cache: [u64; 4],
    pub last_length: u32,
    pub filters: Vec<FilterRegion>,
}

impl View for LzCore {
    type V = Lz;

    open spec fn view(&self) -> Lz {
        Lz {
            out: self.window@,
            cache: self.dist_cache@,
            last: self.last_length,
            filters: self.filters@,
        }
    }
}

fn dist_cache_push(cache: &mut [u64; 4], value: u64)
    ensures
        final(cache)@ == cache_pushed(old(cache)@, value),
{
    cache[3] = cache[2];
    cache[2] = cache[1];
    cache[1] = cache[0];
    cache[0] = value;
    assert(cache@ =~= cache_pushed(old(cache)@, value));
}

fn dist_cache_touch(cache: &mut [u64; 4], idx: usize) -> (value: u64)
    requires
        idx < 4,
    ensures
        value == old(cache)@[idx as int],
        final(cache)@ == cache_touched(old(cache)@, idx as int),
{
    let value: u64 = cache[idx];
    if idx >= 3 {
        cache[3] = cache[2];
    }
    if idx >= 2 {
        cache[2] = cache[1];
    }
    if idx >= 1 {
        cache[1] = cache[0];
    }
    cache[0] = value;
    assert(cache@ =~= cache_touched(old(cache)@, idx as int));
    value
}

impl LzCore {
    pub open spec fn wf(&self) -> bool {
        self.window.wf() && lz_ok(self@)
    }

    fn copy(&mut self, dist: u64, length: u32)
        requires
            old(self).wf(),
            old(self)@.out.len() + length <= u64::MAX,
        ensures
            final(self).wf(),
            final(self).window.capacity() == old(self).window.capacity(),
            final(self)@ == (Lz {
                out: copied(
                    old(self)@.out,
                    old(self).window.capacity(),
                    dist as int,
                    length as nat,
                ),
                ..old(self)@
            }),
    {
        let n: u64 = self.window.size() as u64;
        proof {
            self.window.lemma_capacity();
        }
        let d: usize = (dist % n) as usize;
        proof {
            lemma_distance_mod(self.window@, n as int, dist as int, length as nat);
        }
        self.window.copy_match(d, length as usize);
    }

    /// Carry out one symbol.
    pub fn apply(&mut self, sym: Symbol)
        requires
            old(self).wf(),
            symbol_bounded(sym),
            old(self)@.out.len() + u32::MAX + 4100 <= u64::MAX,
        ensures
            final(self).wf(),
            final(self).window.capacity() == old(self).window.capacity(),
            final(self)@ == apply_symbol(old(self)@, old(self).window.capacity(), sym),
    {
        match sym {
            Symbol::Literal(b) => {
                self.window.put_byte(b);
            },
            Symbol::Match { distance, length } => {
                let l: u32 = crate::codec::slots::apply_length_bonus(length, distance);
                dist_cache_push(&mut self.dist_cache, distance);
                self.last_length = l;
                self.copy(distance, l);
            },
            Symbol::CacheRef { index, length } => {
                let dist: u64 = dist_cache_touch(&mut self.dist_cache, index);
                self.last_length = length;
                self.copy(dist, length);
            },
            Symbol::Repeat => {
                if self.last_length > 0 && self.dist_cache[0] > 0 {
                    self.copy(self.dist_cache[0], self.last_length);
                }
            },
            Symbol::Filter { block_start, block_length, filter_type, channels } => {
                let start: u64 = self.window.total_written() + block_start as u64;
                self.filters.push(
                    FilterRegion {
                        filter_type,
                        block_start: start,
                        block_length: block_length as u64,
                        channels,
                    },
                );
            },
        }
    }
}

proof fn lemma_distance_mod(out: Seq<u8>, n: int, dist: int, len: nat)
    requires
        n > 0,
        dist >= 0,
    ensures
        copied(out, n, dist % n, len) == copied(out, n, dist, len),
    decreases len,
{
    vstd::arithmetic::div_mod::lemma_mod_twice(dist, n);
    if len > 0 {
        lemma_distance_mod(out, n, dist, (len - 1) as nat);
    }
}

} // verus!
