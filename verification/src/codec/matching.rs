//! What makes a symbol sequence a faithful encoding: a machine over the data
//! to be encoded that accepts only symbols the decoder turns back into it.

use crate::codec::block::{apply_all, short_of, symbols_ok};
use crate::codec::lz::{apply_symbol, cache_pushed, cache_touched, lz_ok, Lz};
use crate::codec::slots::spec_length_bonus;
use crate::codec::symbols::{symbol_ok, Symbol};
use crate::codec::window::{byte_back, copied, window_distance};
use vstd::arithmetic::div_mod::*;
use vstd::prelude::*;

verus! {

/// The `len` bytes at `p` repeat those `dist` places before, which lie within
/// the window.
pub open spec fn valid_match(full: Seq<u8>, p: int, dist: int, len: int, window: int) -> bool {
    &&& 1 <= dist <= p
    &&& dist <= window
    &&& 0 <= len
    &&& p + len <= full.len()
    &&& forall|i: int| p <= i < p + len ==> #[trigger] full[i] == full[i - dist]
}

/// Distances and last length as far as they are known; zero is unknown.
pub ghost struct Memory {
    pub reps: Seq<u64>,
    pub last: int,
}

/// Everything `a` knows is so in `b`.
pub open spec fn knows(a: Memory, b: Memory) -> bool {
    &&& a.reps.len() == 4
    &&& b.reps.len() == 4
    &&& forall|i: int| 0 <= i < 4 && #[trigger] a.reps[i] != 0 ==> a.reps[i] == b.reps[i]
    &&& a.last != 0 ==> a.last == b.last
}

/// What the decoder remembers.
pub open spec fn memory_of(z: Lz) -> Memory {
    Memory { reps: z.cache, last: z.last as int }
}

/// The next position and memory, where `sym` encodes the bytes at `p`.
pub open spec fn sym_step(full: Seq<u8>, window: int, p: int, g: Memory, sym: Symbol) -> Option<
    (int, Memory),
> {
    match sym {
        Symbol::Literal(b) => if 0 <= p < full.len() && full[p] == b {
            Some((p + 1, g))
        } else {
            None
        },
        Symbol::Match { distance, length } => {
            let l = length + spec_length_bonus(distance as int);
            if symbol_ok(sym) && valid_match(full, p, distance as int, l, window) {
                Some((p + l, Memory { reps: cache_pushed(g.reps, distance), last: l }))
            } else {
                None
            }
        },
        Symbol::CacheRef { index, length } => {
            if symbol_ok(sym) && g.reps[index as int] != 0 && valid_match(
                full,
                p,
                g.reps[index as int] as int,
                length as int,
                window,
            ) {
                Some(
                    (
                        p + length,
                        Memory { reps: cache_touched(g.reps, index as int), last: length as int },
                    ),
                )
            } else {
                None
            }
        },
        Symbol::Repeat => {
            if g.reps[0] != 0 && g.last > 0 && valid_match(
                full,
                p,
                g.reps[0] as int,
                g.last,
                window,
            ) {
                Some((p + g.last, g))
            } else {
                None
            }
        },
        Symbol::Filter { .. } => None,
    }
}

/// The position and memory after `syms`, where they encode the bytes from
/// `p` on.
pub open spec fn sym_run(
    full: Seq<u8>,
    window: int,
    p: int,
    g: Memory,
    syms: Seq<Symbol>,
) -> Option<(int, Memory)>
    decreases syms.len(),
{
    if syms.len() == 0 {
        Some((p, g))
    } else {
        match sym_run(full, window, p, g, syms.drop_last()) {
            None => None,
            Some((q, h)) => sym_step(full, window, q, h, syms.last()),
        }
    }
}

pub proof fn lemma_sym_run_push(
    full: Seq<u8>,
    window: int,
    p: int,
    g: Memory,
    syms: Seq<Symbol>,
    sym: Symbol,
)
    ensures
        sym_run(full, window, p, g, syms.push(sym)) == match sym_run(full, window, p, g, syms) {
            None => None,
            Some((q, h)) => sym_step(full, window, q, h, sym),
        },
{
    assert(syms.push(sym).drop_last() =~= syms);
}

pub proof fn lemma_sym_run_concat(
    full: Seq<u8>,
    window: int,
    p: int,
    g: Memory,
    a: Seq<Symbol>,
    b: Seq<Symbol>,
)
    requires
        sym_run(full, window, p, g, a) is Some,
    ensures
        ({
            let (q, h) = sym_run(full, window, p, g, a)->Some_0;
            sym_run(full, window, p, g, a + b) == sym_run(full, window, q, h, b)
        }),
    decreases b.len(),
{
    if b.len() == 0 {
        assert(a + b =~= a);
    } else {
        lemma_sym_run_concat(full, window, p, g, a, b.drop_last());
        assert((a + b).drop_last() =~= a + b.drop_last());
    }
}

/// A run only moves forward, within the data, with symbols that can be
/// spelled.
pub proof fn lemma_sym_run_forward(
    full: Seq<u8>,
    window: int,
    p: int,
    g: Memory,
    syms: Seq<Symbol>,
)
    requires
        sym_run(full, window, p, g, syms) is Some,
        0 <= p <= full.len(),
        g.reps.len() == 4,
    ensures
        ({
            let r = sym_run(full, window, p, g, syms)->Some_0;
            p + syms.len() <= r.0 <= full.len() && r.1.reps.len() == 4
        }),
        symbols_ok(syms),
    decreases syms.len(),
{
    if syms.len() > 0 {
        lemma_sym_run_forward(full, window, p, g, syms.drop_last());
        let (q, h) = sym_run(full, window, p, g, syms.drop_last())->Some_0;
        assert(sym_step(full, window, q, h, syms.last()) is Some);
        assert forall|i: int| 0 <= i < syms.len() implies symbol_ok(#[trigger] syms[i]) by {
            if i < syms.len() - 1 {
                assert(syms[i] == syms.drop_last()[i]);
            }
        }
    }
}

/// The same run over a longer stream, of which `full` is the end.
pub proof fn lemma_valid_match_extend(
    full: Seq<u8>,
    more: Seq<u8>,
    p: int,
    dist: int,
    len: int,
    window: int,
)
    requires
        valid_match(full, p, dist, len, window),
        more.len() >= full.len(),
        more.subrange(more.len() - full.len(), more.len() as int) =~= full,
    ensures
        valid_match(more, p + more.len() - full.len(), dist, len, window),
{
    let d = more.len() - full.len();
    assert forall|i: int| p + d <= i < p + d + len implies #[trigger] more[i] == more[i - dist] by {
        assert(full[i - d] == full[i - d - dist]);
        let tail = more.subrange(d, more.len() as int);
        assert(tail[i - d] == more[i]);
        assert(tail[i - d - dist] == more[i - dist]);
    }
}

/// Copying a valid match appends the bytes it stands for.
pub proof fn lemma_copy_match(
    out: Seq<u8>,
    n: int,
    full: Seq<u8>,
    p: int,
    dist: int,
    len: nat,
    window: int,
)
    requires
        valid_match(full, p, dist, len as int, window),
        window <= n,
        p <= out.len(),
        out.subrange(out.len() - p, out.len() as int) =~= full.subrange(0, p),
    ensures
        copied(out, n, dist, len) == out + full.subrange(p, p + len),
    decreases len,
{
    if len == 0 {
        assert(out + full.subrange(p, p) =~= out);
    } else {
        let k = (len - 1) as nat;
        assert(valid_match(full, p, dist, k as int, window));
        lemma_copy_match(out, n, full, p, dist, k, window);
        let o = copied(out, n, dist, k);
        if dist == n {
            lemma_mod_self_0(n);
        } else {
            lemma_small_mod(dist as nat, n as nat);
        }
        assert(window_distance(n, dist) == dist);
        assert(o.len() == out.len() + k);
        let at = o.len() - dist;
        assert(byte_back(o, dist) == o[at]);
        assert(full[p + k] == full[p + k - dist]);
        if k >= dist {
            assert(o[at] == full.subrange(p, p + k)[k - dist]);
        } else {
            let j = at;
            let tail = out.subrange(out.len() - p, out.len() as int);
            assert(out[at] == tail[at - (out.len() - p)]);
            assert(tail[p + k - dist] == full.subrange(0, p)[p + k - dist]);
        }
        assert(o.push(full[p + k]) =~= out + full.subrange(p, p + len));
    }
}

/// The decoder's output ends with the first `p` bytes of `full`.
pub open spec fn output_ends(z: Lz, full: Seq<u8>, p: int) -> bool {
    &&& 0 <= p <= full.len()
    &&& p <= z.out.len()
    &&& z.out.subrange(z.out.len() - p, z.out.len() as int) =~= full.subrange(0, p)
}

proof fn lemma_output_ends(z: Lz, full: Seq<u8>, p: int, q: int, out: Seq<u8>)
    requires
        output_ends(z, full, p),
        p <= q <= full.len(),
        out == z.out + full.subrange(p, q),
    ensures
        output_ends(Lz { out, ..z }, full, q),
{
    let a = out.subrange(out.len() - q, out.len() as int);
    assert forall|i: int| 0 <= i < q implies a[i] == full.subrange(0, q)[i] by {
        if i < p {
            let t = z.out.subrange(z.out.len() - p, z.out.len() as int);
            assert(t[i] == full.subrange(0, p)[i]);
            assert(a[i] == z.out[z.out.len() - p + i]);
        }
    }
}

/// One accepted symbol makes the decoder append the bytes it encodes.
pub proof fn lemma_sym_step_decodes(
    full: Seq<u8>,
    window: int,
    p: int,
    g: Memory,
    sym: Symbol,
    z: Lz,
    n: int,
)
    requires
        sym_step(full, window, p, g, sym) is Some,
        lz_ok(z),
        knows(g, memory_of(z)),
        output_ends(z, full, p),
        window <= n,
    ensures
        ({
            let (q, h) = sym_step(full, window, p, g, sym)->Some_0;
            let z2 = apply_symbol(z, n, sym);
            &&& p < q <= full.len()
            &&& z2.out == z.out + full.subrange(p, q)
            &&& z2.filters == z.filters
            &&& knows(h, memory_of(z2))
            &&& lz_ok(z2)
            &&& output_ends(z2, full, q)
        }),
{
    let (q, h) = sym_step(full, window, p, g, sym)->Some_0;
    let z2 = apply_symbol(z, n, sym);
    match sym {
        Symbol::Literal(b) => {
            assert(z2.out =~= z.out + full.subrange(p, p + 1));
        },
        Symbol::Match { distance, length } => {
            let l = length + spec_length_bonus(distance as int);
            lemma_copy_match(z.out, n, full, p, distance as int, l as nat, window);
            assert(forall|i: int|
                0 <= i < 4 && #[trigger] h.reps[i] != 0 ==> h.reps[i] == z2.cache[i]);
        },
        Symbol::CacheRef { index, length } => {
            let d = g.reps[index as int];
            assert(d == z.cache[index as int]);
            lemma_copy_match(z.out, n, full, p, d as int, length as nat, window);
            assert(forall|i: int|
                0 <= i < 4 && #[trigger] h.reps[i] != 0 ==> h.reps[i] == z2.cache[i]);
        },
        Symbol::Repeat => {
            assert(g.reps[0] == z.cache[0]);
            lemma_copy_match(z.out, n, full, p, g.reps[0] as int, g.last as nat, window);
        },
        Symbol::Filter { .. } => {},
    }
    lemma_output_ends(z, full, p, q, z2.out);
    assert(output_ends(Lz { out: z2.out, ..z }, full, q));
}

/// An accepted run makes the decoder append the bytes it encodes, and not
/// before its last symbol.
pub proof fn lemma_sym_run_decodes(
    full: Seq<u8>,
    window: int,
    p: int,
    g: Memory,
    syms: Seq<Symbol>,
    z: Lz,
    n: int,
)
    requires
        sym_run(full, window, p, g, syms) is Some,
        lz_ok(z),
        knows(g, memory_of(z)),
        output_ends(z, full, p),
        window <= n,
    ensures
        ({
            let (q, h) = sym_run(full, window, p, g, syms)->Some_0;
            let z2 = apply_all(z, n, syms);
            &&& p + syms.len() <= q <= full.len()
            &&& z2.out == z.out + full.subrange(p, q)
            &&& z2.filters == z.filters
            &&& knows(h, memory_of(z2))
            &&& lz_ok(z2)
            &&& output_ends(z2, full, q)
            &&& short_of(z, n, syms, z.out.len() + q - p)
        }),
    decreases syms.len(),
{
    if syms.len() == 0 {
        assert(z.out + full.subrange(p, p) =~= z.out);
    } else {
        let front = syms.drop_last();
        lemma_sym_run_decodes(full, window, p, g, front, z, n);
        let (m, gm) = sym_run(full, window, p, g, front)->Some_0;
        let zm = apply_all(z, n, front);
        lemma_sym_step_decodes(full, window, m, gm, syms.last(), zm, n);
        let (q, h) = sym_run(full, window, p, g, syms)->Some_0;
        assert(full.subrange(p, m) + full.subrange(m, q) =~= full.subrange(p, q));
        assert(z.out + full.subrange(p, m) + full.subrange(m, q) =~= z.out + full.subrange(p, q));
        assert forall|k: int| 0 <= k < syms.len() implies (#[trigger] apply_all(
            z,
            n,
            syms.subrange(0, k),
        )).out.len() < z.out.len() + q - p by {
            if k < front.len() {
                assert(syms.subrange(0, k) =~= front.subrange(0, k));
            } else {
                assert(syms.subrange(0, k) =~= front);
            }
        }
    }
}

} // verus!
