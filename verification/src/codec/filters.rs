//! Output filters: reversible transforms of a region that make it pack
//! smaller, undone by the decoder.

use crate::codec::error::CodecError;
use crate::codec::symbols::{FILTER_ARM, FILTER_DELTA, FILTER_E8, FILTER_E8E9};
use vstd::arithmetic::div_mod::*;
use vstd::arithmetic::mul::*;
use vstd::prelude::*;

verus! {

// ── Delta ──────────────────────────────────────────────────────────────────

/// Where the difference for position `p` of `n` bytes in `c` interleaved
/// channels is stored: channel after channel, each in order.
pub open spec fn delta_src(n: int, c: int, p: int) -> int {
    (p % c) * (n / c) + (if p % c < n % c {
        p % c
    } else {
        n % c
    }) + p / c
}

/// The difference, modulo 256.
pub open spec fn byte_sub(a: u8, b: u8) -> u8 {
    ((a - b) % 256) as u8
}

/// The byte before position `p` in its channel; zero at a channel's start.
pub open spec fn channel_prev(data: Seq<u8>, c: int, p: int) -> u8 {
    if p < c {
        0
    } else {
        data[p - c]
    }
}

/// The byte at position `p` that the differences `d` stand for.
pub open spec fn delta_byte(d: Seq<u8>, c: int, p: int) -> u8
    decreases p,
{
    if c <= 0 || p < 0 {
        0
    } else {
        byte_sub(
            if p < c {
                0
            } else {
                delta_byte(d, c, p - c)
            },
            d[delta_src(d.len() as int, c, p)],
        )
    }
}

/// The bytes that the differences `d` stand for.
pub open spec fn delta_decoded(d: Seq<u8>, c: int) -> Seq<u8> {
    Seq::new(d.len(), |p: int| delta_byte(d, c, p))
}

/// `d` holds the differences of `data`.
pub open spec fn is_delta_of(d: Seq<u8>, data: Seq<u8>, c: int) -> bool {
    &&& d.len() == data.len()
    &&& forall|p: int|
        0 <= p < data.len() ==> d[#[trigger] delta_src(data.len() as int, c, p)] == byte_sub(
            channel_prev(data, c, p),
            data[p],
        )
}

proof fn lemma_delta_src(n: int, c: int, p: int)
    requires
        c > 0,
        0 <= p < n,
    ensures
        0 <= delta_src(n, c, p) < n,
        delta_src(n, c, p) < (p % c + 1) * (n / c) + (if p % c + 1 < n % c {
            p % c + 1
        } else {
            n % c
        }),
{
    let ch = p % c;
    let k = p / c;
    let q = n / c;
    let r = n % c;
    lemma_fundamental_div_mod(p, c);
    lemma_fundamental_div_mod(n, c);
    lemma_mod_bound(p, c);
    lemma_mod_bound(n, c);
    lemma_div_pos_is_pos(p, c);
    lemma_div_pos_is_pos(n, c);
    assert((ch + 1) * q == ch * q + q) by (nonlinear_arith);
    assert(ch * q >= 0) by (nonlinear_arith)
        requires
            ch >= 0,
            q >= 0,
    ;
    if ch < r {
        assert(k <= q) by (nonlinear_arith)
            requires
                c * k + ch < c * q + r,
                ch < r,
                0 <= ch,
                r < c,
                c > 0,
        ;
    } else {
        assert(k < q) by (nonlinear_arith)
            requires
                c * k + ch < c * q + r,
                ch >= r,
                c > 0,
        ;
    }
    assert((ch + 1) * q <= c * q) by (nonlinear_arith)
        requires
            ch + 1 <= c,
            q >= 0,
    ;
}

/// Channels are stored in order, and positions in order within a channel.
proof fn lemma_delta_src_ordered(n: int, c: int, p: int, t: int)
    requires
        c > 0,
        0 <= p < n,
        0 <= t < n,
        p % c < t % c || (p % c == t % c && p < t),
    ensures
        delta_src(n, c, p) < delta_src(n, c, t),
{
    lemma_delta_src(n, c, p);
    lemma_fundamental_div_mod(p, c);
    lemma_fundamental_div_mod(t, c);
    lemma_mod_bound(p, c);
    lemma_mod_bound(n, c);
    lemma_div_pos_is_pos(t, c);
    lemma_div_pos_is_pos(n, c);
    let q = n / c;
    if p % c < t % c {
        assert((p % c + 1) * q <= (t % c) * q) by (nonlinear_arith)
            requires
                p % c + 1 <= t % c,
                q >= 0,
        ;
    } else {
        assert(p / c < t / c) by (nonlinear_arith)
            requires
                c * (p / c) < c * (t / c),
                c > 0,
        ;
    }
}

/// Decoding the differences of `data` gives `data` back.
pub proof fn lemma_delta_inverse(d: Seq<u8>, data: Seq<u8>, c: int)
    requires
        c > 0,
        is_delta_of(d, data, c),
    ensures
        delta_decoded(d, c) == data,
{
    assert forall|p: int| 0 <= p < data.len() implies delta_byte(d, c, p) == data[p] by {
        lemma_delta_byte(d, data, c, p);
    }
    assert(delta_decoded(d, c) =~= data);
}

proof fn lemma_delta_byte(d: Seq<u8>, data: Seq<u8>, c: int, p: int)
    requires
        c > 0,
        is_delta_of(d, data, c),
        0 <= p < data.len(),
    ensures
        delta_byte(d, c, p) == data[p],
    decreases p,
{
    if p >= c {
        lemma_delta_byte(d, data, c, p - c);
    }
    let a = channel_prev(data, c, p);
    assert(d[delta_src(data.len() as int, c, p)] == byte_sub(a, data[p]));
    lemma_byte_sub_inverse(a, data[p]);
    assert(delta_byte(d, c, p) == byte_sub(a, d[delta_src(data.len() as int, c, p)]));
}

proof fn lemma_byte_sub_inverse(a: u8, b: u8)
    ensures
        byte_sub(a, byte_sub(a, b)) == b,
{
}

fn delta_decode(data: &[u8], channels: usize) -> (out: Vec<u8>)
    requires
        channels > 0,
    ensures
        out@ == delta_decoded(data@, channels as int),
{
    let n: usize = data.len();
    let mut out: Vec<u8> = vec![0u8; n];
    let ghost c = channels as int;
    let mut src: usize = 0;
    let mut ch: usize = 0;
    proof {
        lemma_small_mod(0, channels as nat);
    }
    while ch < channels && ch < n
        invariant
            n == data@.len(),
            c == channels,
            c > 0,
            ch <= channels,
            out@.len() == n,
            src == ch * (n as int / c) + if ch < n as int % c {
                ch as int
            } else {
                n as int % c
            },
            forall|p: int| 0 <= p < n && p % c < ch ==> #[trigger] out@[p] == delta_byte(data@, c, p),
        decreases channels - ch,
    {
        let mut pos: usize = ch;
        let ghost mut at: int = ch as int;
        let mut prev: u8 = 0;
        proof {
            lemma_channel_start(n as int, c, ch as int);
            assert forall|p: int| 0 <= p < ch implies #[trigger] (p % c) < ch by {
                lemma_small_mod(p as nat, c as nat);
            }
        }
        while pos < n
            invariant
                n == data@.len(),
                    c == channels,
                c > 0,
                ch < channels,
                ch <= at,
                at < n + c,
                at % c == ch,
                pos == if at < n {
                    at
                } else {
                    n as int
                },
                out@.len() == n,
                prev == if at < c {
                    0
                } else {
                    delta_byte(data@, c, at - c)
                },
                at < n ==> src == delta_src(n as int, c, at),
                at >= n ==> src == (ch + 1) * (n as int / c) + if ch + 1 < n as int % c {
                    ch + 1
                } else {
                    n as int % c
                },
                forall|p: int|
                    0 <= p < n && (p % c < ch || (p % c == ch && p < at)) ==> #[trigger] out@[p]
                        == delta_byte(data@, c, p),
            decreases n + channels - at,
        {
            proof {
                lemma_delta_src(n as int, c, pos as int);
            }
            let d: u8 = data[src];
            let b: u8 = prev.wrapping_sub(d);
            proof {
                assert(b == byte_sub(prev, d));
                lemma_channel_step(n as int, c, pos as int);
                lemma_mod_add_multiples_vanish(pos as int, c);
            }
            let ghost before = out@;
            out.set(pos, b);
            prev = b;
            src = src + 1;
            pos = if n - pos > channels {
                pos + channels
            } else {
                n
            };
            proof {
                at = at + c;
                assert forall|p: int|
                    0 <= p < n && (p % c < ch || (p % c == ch && p < at)) implies #[trigger] out@[p]
                    == delta_byte(data@, c, p) by {
                    if p % c == ch && p != at - c {
                        if p > at - c {
                            lemma_same_channel(p, at - c, c);
                        }
                    }
                }
            }
        }
        ch = ch + 1;
    }
    proof {
        assert forall|p: int| 0 <= p < n implies out@[p] == delta_byte(data@, c, p) by {
            lemma_mod_bound(p, c);
            if p % c >= ch {
                lemma_mod_decreases(p as nat, c as nat);
            }
        }
        assert(out@ =~= delta_decoded(data@, c));
    }
    out
}

proof fn lemma_same_channel(p: int, t: int, c: int)
    requires
        c > 0,
        p % c == t % c,
        t < p,
    ensures
        p >= t + c,
{
    lemma_fundamental_div_mod(p, c);
    lemma_fundamental_div_mod(t, c);
    assert(p / c >= t / c + 1) by (nonlinear_arith)
        requires
            c * (p / c) > c * (t / c),
            c > 0,
    ;
    assert(c * (p / c) >= c * (t / c) + c) by (nonlinear_arith)
        requires
            p / c >= t / c + 1,
            c > 0,
    ;
}

proof fn lemma_channel_start(n: int, c: int, ch: int)
    requires
        c > 0,
        0 <= ch < c,
        0 <= n,
    ensures
        ch % c == ch,
        ch / c == 0,
{
    lemma_small_mod(ch as nat, c as nat);
    lemma_basic_div(ch, c);
}

proof fn lemma_channel_step(n: int, c: int, p: int)
    requires
        c > 0,
        0 <= p < n,
    ensures
        (p + c) % c == p % c,
        p + c < n ==> delta_src(n, c, p + c) == delta_src(n, c, p) + 1,
        p + c >= n ==> delta_src(n, c, p) + 1 == (p % c + 1) * (n / c) + if p % c + 1 < n % c {
            p % c + 1
        } else {
            n % c
        },
{
    lemma_mod_add_multiples_vanish(p, c);
    lemma_div_plus_one(p, c);
    lemma_fundamental_div_mod(p, c);
    lemma_fundamental_div_mod(n, c);
    lemma_mod_bound(p, c);
    lemma_mod_bound(n, c);
    assert((c + p) / c == p / c + 1);
    assert((p + c) % c == p % c) by {
        assert(p + c == c + p);
    }
    let ch = p % c;
    let k = p / c;
    let q = n / c;
    let r = n % c;
    assert((ch + 1) * q == ch * q + q) by (nonlinear_arith);
    if p + c >= n {
        if ch < r {
            assert(k == q) by (nonlinear_arith)
                requires
                    c * k + ch + c >= c * q + r,
                    c * k + ch < c * q + r,
                    0 <= ch < r,
                    r < c,
                    c > 0,
            ;
        } else {
            assert(k == q - 1) by (nonlinear_arith)
                requires
                    c * k + ch + c >= c * q + r,
                    c * k + ch < c * q + r,
                    r <= ch < c,
                    0 <= r,
                    c > 0,
            ;
        }
    }
}

fn delta_encode(data: &[u8], channels: usize) -> (out: Vec<u8>)
    requires
        channels > 0,
    ensures
        is_delta_of(out@, data@, channels as int),
{
    let n: usize = data.len();
    let mut out: Vec<u8> = vec![0u8; n];
    let ghost c = channels as int;
    let mut src: usize = 0;
    let mut ch: usize = 0;
    proof {
        lemma_small_mod(0, channels as nat);
    }
    while ch < channels && ch < n
        invariant
            n == data@.len(),
            c == channels,
            c > 0,
            ch <= channels,
            out@.len() == n,
            src == ch * (n as int / c) + if ch < n as int % c {
                ch as int
            } else {
                n as int % c
            },
            forall|p: int|
                0 <= p < n && p % c < ch ==> out@[#[trigger] delta_src(n as int, c, p)] == byte_sub(
                    channel_prev(data@, c, p),
                    data@[p],
                ),
        decreases channels - ch,
    {
        let mut pos: usize = ch;
        let ghost mut at: int = ch as int;
        let mut prev: u8 = 0;
        proof {
            lemma_channel_start(n as int, c, ch as int);
            assert forall|p: int| 0 <= p < ch implies #[trigger] (p % c) < ch by {
                lemma_small_mod(p as nat, c as nat);
            }
        }
        while pos < n
            invariant
                n == data@.len(),
                    c == channels,
                c > 0,
                ch < channels,
                ch <= at,
                at < n + c,
                at % c == ch,
                pos == if at < n {
                    at
                } else {
                    n as int
                },
                out@.len() == n,
                prev == channel_prev(data@, c, at),
                at < n ==> src == delta_src(n as int, c, at),
                at >= n ==> src == (ch + 1) * (n as int / c) + if ch + 1 < n as int % c {
                    ch + 1
                } else {
                    n as int % c
                },
                forall|p: int|
                    0 <= p < n && (p % c < ch || (p % c == ch && p < at))
                        ==> out@[#[trigger] delta_src(n as int, c, p)] == byte_sub(
                        channel_prev(data@, c, p),
                        data@[p],
                    ),
            decreases n + channels - at,
        {
            proof {
                lemma_delta_src(n as int, c, pos as int);
            }
            let b: u8 = data[pos];
            let d: u8 = prev.wrapping_sub(b);
            proof {
                assert(d == byte_sub(prev, b));
                lemma_channel_step(n as int, c, pos as int);
            }
            let ghost here = at;
            let ghost before = out@;
            out.set(src, d);
            prev = b;
            src = src + 1;
            pos = if n - pos > channels {
                pos + channels
            } else {
                n
            };
            proof {
                at = at + c;
                assert forall|p: int|
                    0 <= p < n && (p % c < ch || (p % c == ch && p < at)) implies out@[#[trigger] delta_src(
                    n as int,
                    c,
                    p,
                )] == byte_sub(channel_prev(data@, c, p), data@[p]) by {
                    if p != here {
                        if p % c == ch && p > here {
                            lemma_same_channel(p, here, c);
                        }
                        lemma_delta_src(n as int, c, p);
                        lemma_delta_src_ordered(n as int, c, p, here);
                        assert(out@[delta_src(n as int, c, p)] == before[delta_src(
                            n as int,
                            c,
                            p,
                        )]);
                    }
                }
            }
        }
        ch = ch + 1;
    }
    proof {
        assert forall|p: int| 0 <= p < n implies out@[#[trigger] delta_src(n as int, c, p)]
            == byte_sub(channel_prev(data@, c, p), data@[p]) by {
            lemma_mod_bound(p, c);
            if p % c >= ch {
                lemma_mod_decreases(p as nat, c as nat);
            }
        }
    }
    out
}

// ── x86 ────────────────────────────────────────────────────────────────────

/// The little-endian 32-bit number at the front of `s`.
#[verifier::opaque]
pub open spec fn le32(s: Seq<u8>) -> int {
    s[0] + 256 * s[1] + 65536 * s[2] + 16777216 * s[3]
}

/// The bytes of a 32-bit number, little-endian.
#[verifier::opaque]
pub open spec fn le32_bytes(v: int) -> Seq<u8> {
    seq![
        (v % 256) as u8,
        (v / 256 % 256) as u8,
        (v / 65536 % 256) as u8,
        (v / 16777216 % 256) as u8,
    ]
}

/// The span of addresses that the transform permutes.
pub const X86_FILE_SIZE: u32 = 0x100_0000;

/// A 32-bit number read as signed.
pub open spec fn signed32(v: int) -> int {
    if v >= 0x8000_0000 {
        v - 0x1_0000_0000
    } else {
        v
    }
}

/// The relative target that the absolute one `v` at `offset` stands for.
pub open spec fn x86_relative(v: int, offset: int) -> int {
    let a = signed32(v);
    if -offset <= a < 0 {
        a + 0x100_0000
    } else if 0 <= a < 0x100_0000 {
        (a - offset) % 0x1_0000_0000
    } else {
        v
    }
}

/// The absolute target that the relative one `v` at `offset` stands for.
pub open spec fn x86_absolute(v: int, offset: int) -> int {
    let a = signed32(v);
    if -offset <= a < 0x100_0000 - offset {
        a + offset
    } else if 0x100_0000 - offset <= a < 0x100_0000 {
        (a - 0x100_0000) % 0x1_0000_0000
    } else {
        v
    }
}

proof fn lemma_x86_target(v: int, offset: int)
    requires
        0 <= v < 0x1_0000_0000,
        0 <= offset < 0x100_0000,
    ensures
        0 <= x86_absolute(v, offset) < 0x1_0000_0000,
        0 <= x86_relative(v, offset) < 0x1_0000_0000,
        x86_relative(x86_absolute(v, offset), offset) == v,
{
}

pub open spec fn is_x86_op(b: u8, with_e9: bool) -> bool {
    b == 0xE8 || (with_e9 && b == 0xE9)
}

/// `s`, whose first byte stands at file position `base`, with the target
/// after every opcode replaced; what a target covers is not looked at again.
pub open spec fn x86_mapped(s: Seq<u8>, base: int, with_e9: bool, encode: bool) -> Seq<u8>
    decreases s.len(),
{
    if s.len() <= 4 {
        s
    } else if is_x86_op(s[0], with_e9) {
        let offset = (base + 1) % 0x100_0000;
        let v = le32(s.subrange(1, 5));
        let w = if encode {
            x86_absolute(v, offset)
        } else {
            x86_relative(v, offset)
        };
        seq![s[0]] + le32_bytes(w) + x86_mapped(
            s.subrange(5, s.len() as int),
            base + 5,
            with_e9,
            encode,
        )
    } else {
        seq![s[0]] + x86_mapped(s.subrange(1, s.len() as int), base + 1, with_e9, encode)
    }
}

pub proof fn lemma_x86_len(s: Seq<u8>, base: int, with_e9: bool, encode: bool)
    ensures
        x86_mapped(s, base, with_e9, encode).len() == s.len(),
    decreases s.len(),
{
    reveal(le32_bytes);
    if s.len() > 4 {
        if is_x86_op(s[0], with_e9) {
            lemma_x86_len(s.subrange(5, s.len() as int), base + 5, with_e9, encode);
        } else {
            lemma_x86_len(s.subrange(1, s.len() as int), base + 1, with_e9, encode);
        }
    }
}

proof fn lemma_le32_bytes(v: int)
    requires
        0 <= v < 0x1_0000_0000,
    ensures
        le32(le32_bytes(v)) == v,
        le32_bytes(v).len() == 4,
{
    reveal(le32);
    reveal(le32_bytes);
    assert(v / 65536 == v / 256 / 256);
    assert(v / 16777216 == v / 256 / 256 / 256);
}

proof fn lemma_le32_of_bytes(s: Seq<u8>)
    requires
        s.len() == 4,
    ensures
        0 <= le32(s) < 0x1_0000_0000,
        le32_bytes(le32(s)) == s,
{
    reveal(le32);
    reveal(le32_bytes);
    let v = le32(s);
    assert(v / 256 == s[1] + 256 * s[2] + 65536 * s[3]);
    assert(v / 65536 == s[2] + 256 * s[3]);
    assert(v / 16777216 == s[3]);
    assert(le32_bytes(v) =~= s);
}

fn load_le32(data: &[u8], i: usize) -> (v: u32)
    requires
        i + 4 <= data@.len(),
    ensures
        v == le32(data@.subrange(i as int, i + 4)),
{
    reveal(le32);
    data[i] as u32 + data[i + 1] as u32 * 256 + data[i + 2] as u32 * 65536 + data[i + 3] as u32
        * 16777216
}

fn push_le32(out: &mut Vec<u8>, w: u32)
    ensures
        final(out)@ == old(out)@ + le32_bytes(w as int),
        le32_bytes(w as int).len() == 4,
{
    reveal(le32_bytes);
    out.push((w % 256) as u8);
    out.push((w / 256 % 256) as u8);
    out.push((w / 65536 % 256) as u8);
    out.push((w / 16777216 % 256) as u8);
    assert(out@ =~= old(out)@ + le32_bytes(w as int));
}

/// The decoder's transform undoes the encoder's.
pub proof fn lemma_x86_inverse(s: Seq<u8>, base: int, with_e9: bool)
    requires
        base >= 0,
    ensures
        x86_mapped(x86_mapped(s, base, with_e9, true), base, with_e9, false) == s,
    decreases s.len(),
{
    let e = x86_mapped(s, base, with_e9, true);
    lemma_x86_len(s, base, with_e9, true);
    if s.len() > 4 {
        if is_x86_op(s[0], with_e9) {
            let rest = s.subrange(5, s.len() as int);
            let offset = (base + 1) % 0x100_0000;
            let t = s.subrange(1, 5);
            let v = le32(t);
            let w = x86_absolute(v, offset);
            let er = x86_mapped(rest, base + 5, with_e9, true);
            lemma_x86_len(rest, base + 5, with_e9, true);
            lemma_le32_of_bytes(t);
            lemma_x86_target(v, offset);
            lemma_le32_bytes(w);
            lemma_x86_inverse(rest, base + 5, with_e9);
            assert(e == seq![s[0]] + le32_bytes(w) + er);
            assert(e[0] == s[0]);
            assert(e.subrange(1, 5) =~= le32_bytes(w));
            assert(e.subrange(5, e.len() as int) =~= er);
            assert(x86_mapped(e, base, with_e9, false) == seq![s[0]] + le32_bytes(v) + rest);
            assert(seq![s[0]] + t + rest =~= s);
        } else {
            let rest = s.subrange(1, s.len() as int);
            let er = x86_mapped(rest, base + 1, with_e9, true);
            lemma_x86_inverse(rest, base + 1, with_e9);
            assert(e == seq![s[0]] + er);
            assert(e[0] == s[0]);
            assert(e.subrange(1, e.len() as int) =~= er);
            assert(seq![s[0]] + rest =~= s);
        }
    }
}

/// The new target for `v` at `offset`.
fn x86_target(v: u32, offset: u32, encode: bool) -> (w: u32)
    requires
        offset < X86_FILE_SIZE,
    ensures
        w == if encode {
            x86_absolute(v as int, offset as int)
        } else {
            x86_relative(v as int, offset as int)
        },
{
    if encode {
        if v.wrapping_add(offset) < X86_FILE_SIZE && (v >= 0x8000_0000 || v < X86_FILE_SIZE - offset) {
            v.wrapping_add(offset)
        } else if v < X86_FILE_SIZE && v >= X86_FILE_SIZE - offset {
            v.wrapping_sub(X86_FILE_SIZE)
        } else {
            v
        }
    } else {
        if v >= 0x8000_0000 {
            if v.wrapping_add(offset) < 0x8000_0000 {
                v.wrapping_add(X86_FILE_SIZE)
            } else {
                v
            }
        } else if v < X86_FILE_SIZE {
            v.wrapping_sub(offset)
        } else {
            v
        }
    }
}

fn x86_transform(data: &[u8], file_offset: u64, with_e9: bool, encode: bool) -> (out: Vec<u8>)
    ensures
        out@ == x86_mapped(data@, file_offset as int, with_e9, encode),
        out@.len() == data@.len(),
{
    let n: usize = data.len();
    let ghost s = data@;
    let mut out: Vec<u8> = Vec::with_capacity(n);
    let mut i: usize = 0;
    let mut offset: u32 = (file_offset % 0x100_0000) as u32;
    assert(s.subrange(0, n as int) =~= s);
    assert(out@ + x86_mapped(s, file_offset as int, with_e9, encode) =~= x86_mapped(
        s,
        file_offset as int,
        with_e9,
        encode,
    ));
    while n - i > 4
        invariant
            i <= n,
            n == s.len(),
            s == data@,
            out@.len() == i,
            offset == (file_offset + i) % 0x100_0000,
            x86_mapped(s, file_offset as int, with_e9, encode) == out@ + x86_mapped(
                s.subrange(i as int, n as int),
                file_offset + i,
                with_e9,
                encode,
            ),
        decreases n - i,
    {
        let b: u8 = data[i];
        let ghost rest = s.subrange(i as int, n as int);
        let ghost before = out@;
        offset = if offset + 1 == X86_FILE_SIZE {
            0
        } else {
            offset + 1
        };
        if b == 0xE8 || (with_e9 && b == 0xE9) {
            let v: u32 = load_le32(data, i + 1);
            let w: u32 = x86_target(v, offset, encode);
            out.push(b);
            push_le32(&mut out, w);
            proof {
                assert(rest.subrange(1, 5) =~= s.subrange(i + 1, i + 5));
                assert(v == le32(rest.subrange(1, 5)));
                assert(rest.subrange(5, rest.len() as int) =~= s.subrange(i + 5, n as int));
                assert(out@ =~= before + (seq![b] + le32_bytes(w as int)));
                assert(x86_mapped(s, file_offset as int, with_e9, encode) =~= out@ + x86_mapped(
                    s.subrange(i + 5, n as int),
                    file_offset + i + 5,
                    with_e9,
                    encode,
                ));
            }
            offset = (offset + 4) % X86_FILE_SIZE;
            i = i + 5;
        } else {
            out.push(b);
            proof {
                assert(rest.subrange(1, rest.len() as int) =~= s.subrange(i + 1, n as int));
                assert(out@ =~= before + seq![b]);
                assert(x86_mapped(s, file_offset as int, with_e9, encode) =~= out@ + x86_mapped(
                    s.subrange(i + 1, n as int),
                    file_offset + i + 1,
                    with_e9,
                    encode,
                ));
            }
            i = i + 1;
        }
    }
    let tail = vstd::slice::slice_subrange(data, i, n);
    out.extend_from_slice(tail);
    proof {
        lemma_x86_len(s, file_offset as int, with_e9, encode);
    }
    out
}

// ── ARM ────────────────────────────────────────────────────────────────────

/// The 24-bit number at the front of `s`.
#[verifier::opaque]
pub open spec fn le24(s: Seq<u8>) -> int {
    s[0] + 256 * s[1] + 65536 * s[2]
}

/// The bytes of a 24-bit number, little-endian.
#[verifier::opaque]
pub open spec fn le24_bytes(v: int) -> Seq<u8> {
    seq![(v % 256) as u8, (v / 256 % 256) as u8, (v / 65536 % 256) as u8]
}

/// `s`, whose first byte stands at file position `base`, with the target of
/// every branch instruction replaced.
pub open spec fn arm_mapped(s: Seq<u8>, base: int, encode: bool) -> Seq<u8>
    decreases s.len(),
{
    if s.len() < 4 {
        s
    } else {
        let v = le24(s);
        let w = if encode {
            (v + base / 4) % 0x100_0000
        } else {
            (v - base / 4) % 0x100_0000
        };
        let head = if s[3] == 0xEB {
            le24_bytes(w)
        } else {
            s.subrange(0, 3)
        };
        head + seq![s[3]] + arm_mapped(s.subrange(4, s.len() as int), base + 4, encode)
    }
}

pub proof fn lemma_arm_len(s: Seq<u8>, base: int, encode: bool)
    ensures
        arm_mapped(s, base, encode).len() == s.len(),
    decreases s.len(),
{
    reveal(le24_bytes);
    if s.len() >= 4 {
        lemma_arm_len(s.subrange(4, s.len() as int), base + 4, encode);
    }
}

proof fn lemma_le24(s: Seq<u8>, e: Seq<u8>, w: int)
    requires
        s.len() >= 3,
        0 <= w < 0x100_0000,
        e.len() >= 3,
        e.subrange(0, 3) =~= le24_bytes(w),
    ensures
        0 <= le24(s) < 0x100_0000,
        le24_bytes(le24(s)) =~= s.subrange(0, 3),
        le24(e) == w,
{
    reveal(le24);
    reveal(le24_bytes);
    let v = le24(s);
    assert(v / 256 == s[1] + 256 * s[2]);
    assert(v / 65536 == s[2]);
    assert(w / 65536 == w / 256 / 256);
    let b = le24_bytes(w);
    assert(e[0] == e.subrange(0, 3)[0] && e[1] == e.subrange(0, 3)[1] && e[2] == e.subrange(0, 3)[2]);
}

fn load_le24(data: &[u8], i: usize, Ghost(rest): Ghost<Seq<u8>>) -> (v: u64)
    requires
        i + 3 <= data@.len(),
        rest == data@.subrange(i as int, data@.len() as int),
    ensures
        v == le24(rest),
        v < 0x100_0000,
{
    reveal(le24);
    data[i] as u64 + data[i + 1] as u64 * 256 + data[i + 2] as u64 * 65536
}

fn push_le24(out: &mut Vec<u8>, w: u64)
    ensures
        final(out)@ == old(out)@ + le24_bytes(w as int),
        le24_bytes(w as int).len() == 3,
{
    reveal(le24_bytes);
    out.push((w % 256) as u8);
    out.push((w / 256 % 256) as u8);
    out.push((w / 65536 % 256) as u8);
    assert(out@ =~= old(out)@ + le24_bytes(w as int));
}

proof fn lemma_arm_words(v: int, k: int, word: int)
    requires
        word == k % 0x100_0000,
    ensures
        (v + k) % 0x100_0000 == (v + word) % 0x100_0000,
        (v - k) % 0x100_0000 == (v + 0x100_0000 - word) % 0x100_0000,
{
}

proof fn lemma_arm_next(x: int, word: int)
    requires
        word == (x / 4) % 0x100_0000,
    ensures
        (word + 1) % 0x100_0000 == ((x + 4) / 4) % 0x100_0000,
{
    assert((x + 4) / 4 == x / 4 + 1);
}

proof fn lemma_arm_target(v: int, k: int)
    requires
        0 <= v < 0x100_0000,
    ensures
        ((v + k) % 0x100_0000 - k) % 0x100_0000 == v,
{
}

/// The decoder's transform undoes the encoder's.
pub proof fn lemma_arm_inverse(s: Seq<u8>, base: int)
    ensures
        arm_mapped(arm_mapped(s, base, true), base, false) == s,
    decreases s.len(),
{
    let e = arm_mapped(s, base, true);
    lemma_arm_len(s, base, true);
    if s.len() >= 4 {
        let rest = s.subrange(4, s.len() as int);
        let er = arm_mapped(rest, base + 4, true);
        lemma_arm_len(rest, base + 4, true);
        lemma_arm_inverse(rest, base + 4);
        let v = le24(s);
        let w = (v + base / 4) % 0x100_0000;
        let head = if s[3] == 0xEB {
            le24_bytes(w)
        } else {
            s.subrange(0, 3)
        };
        assert(e == head + seq![s[3]] + er);
        assert(e[3] == s[3]);
        assert(e.subrange(4, e.len() as int) =~= er);
        if s[3] == 0xEB {
            assert(e.subrange(0, 3) =~= le24_bytes(w)) by {
                reveal(le24_bytes);
            }
            lemma_le24(s, e, w);
            lemma_arm_target(v, base / 4);
        } else {
            assert(e.subrange(0, 3) =~= s.subrange(0, 3));
        }
        assert(s.subrange(0, 3) + seq![s[3]] + rest =~= s);
    }
}

#[verifier::rlimit(40)]
#[verifier::spinoff_prover]
fn arm_transform(data: &[u8], file_offset: u64, encode: bool) -> (out: Vec<u8>)
    ensures
        out@ == arm_mapped(data@, file_offset as int, encode),
        out@.len() == data@.len(),
{
    let n: usize = data.len();
    let ghost s = data@;
    let mut out: Vec<u8> = Vec::with_capacity(n);
    let mut i: usize = 0;
    // The instruction's position, counted in words.
    let mut word: u64 = file_offset / 4 % 0x100_0000;
    assert(s.subrange(0, n as int) =~= s);
    assert(out@ + arm_mapped(s, file_offset as int, encode) =~= arm_mapped(
        s,
        file_offset as int,
        encode,
    ));
    while n - i >= 4
        invariant
            i <= n,
            n == s.len(),
            s == data@,
            out@.len() == i,
            word < 0x100_0000,
            word == ((file_offset + i) / 4) % 0x100_0000,
            arm_mapped(s, file_offset as int, encode) == out@ + arm_mapped(
                s.subrange(i as int, n as int),
                file_offset + i,
                encode,
            ),
        decreases n - i,
    {
        let ghost rest = s.subrange(i as int, n as int);
        let ghost before = out@;
        let b3: u8 = data[i + 3];
        if b3 == 0xEB {
            let v: u64 = load_le24(data, i, Ghost(rest));
            let w: u64 = if encode {
                (v + word) % 0x100_0000
            } else {
                (v + 0x100_0000 - word) % 0x100_0000
            };
            proof {
                lemma_arm_words(v as int, (file_offset + i) / 4, word as int);
            }
            push_le24(&mut out, w);
            out.push(b3);
            assert(out@ =~= before + (le24_bytes(w as int) + seq![b3]));
        } else {
            out.push(data[i]);
            out.push(data[i + 1]);
            out.push(data[i + 2]);
            out.push(b3);
            assert(out@ =~= before + (rest.subrange(0, 3) + seq![b3]));
        }
        proof {
            assert(rest.subrange(4, rest.len() as int) =~= s.subrange(i + 4, n as int));
            assert(arm_mapped(s, file_offset as int, encode) =~= out@ + arm_mapped(
                s.subrange(i + 4, n as int),
                file_offset + i + 4,
                encode,
            ));
        }
        proof {
            lemma_arm_next(file_offset + i, word as int);
        }
        word = (word + 1) % 0x100_0000;
        i = i + 4;
    }
    let tail = vstd::slice::slice_subrange(data, i, n);
    out.extend_from_slice(tail);
    proof {
        lemma_arm_len(s, file_offset as int, encode);
    }
    out
}

// ── Dispatch ───────────────────────────────────────────────────────────────

/// The delta filter's channel count; zero counts as one.
pub open spec fn channel_count(channels: u8) -> int {
    if channels == 0 {
        1
    } else {
        channels as int
    }
}

/// What the decoder makes of a region.
pub open spec fn filter_decoded(filter_type: u8, data: Seq<u8>, channels: u8, offset: int) -> Seq<
    u8,
> {
    if filter_type == FILTER_DELTA {
        delta_decoded(data, channel_count(channels))
    } else if filter_type == FILTER_E8 {
        x86_mapped(data, offset, false, false)
    } else if filter_type == FILTER_E8E9 {
        x86_mapped(data, offset, true, false)
    } else {
        arm_mapped(data, offset, false)
    }
}

/// `out` is what the encoder makes of a region.
pub open spec fn is_filter_encoding(
    filter_type: u8,
    data: Seq<u8>,
    channels: u8,
    offset: int,
    out: Seq<u8>,
) -> bool {
    if filter_type == FILTER_DELTA {
        is_delta_of(out, data, channel_count(channels))
    } else if filter_type == FILTER_E8 {
        out == x86_mapped(data, offset, false, true)
    } else if filter_type == FILTER_E8E9 {
        out == x86_mapped(data, offset, true, true)
    } else if filter_type == FILTER_ARM {
        out == arm_mapped(data, offset, true)
    } else {
        out == data
    }
}

pub proof fn lemma_filter_len(filter_type: u8, data: Seq<u8>, channels: u8, offset: int)
    ensures
        filter_decoded(filter_type, data, channels, offset).len() == data.len(),
{
    lemma_x86_len(data, offset, false, false);
    lemma_x86_len(data, offset, true, false);
    lemma_arm_len(data, offset, false);
}

/// Every filter of the format is reversible: decoding a region that was
/// encoded with the same filter at the same offset gives the region back.
pub proof fn lemma_filter_inverse(
    filter_type: u8,
    data: Seq<u8>,
    channels: u8,
    offset: int,
    out: Seq<u8>,
)
    requires
        filter_type <= FILTER_ARM,
        offset >= 0,
        is_filter_encoding(filter_type, data, channels, offset, out),
    ensures
        out.len() == data.len(),
        filter_decoded(filter_type, out, channels, offset) == data,
{
    lemma_x86_len(data, offset, false, true);
    lemma_x86_len(data, offset, true, true);
    lemma_arm_len(data, offset, true);
    if filter_type == FILTER_DELTA {
        lemma_delta_inverse(out, data, channel_count(channels));
    } else if filter_type == FILTER_E8 {
        lemma_x86_inverse(data, offset, false);
    } else if filter_type == FILTER_E8E9 {
        lemma_x86_inverse(data, offset, true);
    } else {
        lemma_arm_inverse(data, offset);
    }
}

/// Transform a region for packing. A filter type the format does not define
/// leaves it as it is.
pub fn apply_filter_encode(filter_type: u8, data: &[u8], channels: u8, file_offset: u64) -> (out: Vec<
    u8,
>)
    ensures
        is_filter_encoding(filter_type, data@, channels, file_offset as int, out@),
        out@.len() == data@.len(),
{
    if filter_type == FILTER_DELTA {
        let c: usize = if channels == 0 { 1 } else { channels as usize };
        delta_encode(data, c)
    } else if filter_type == FILTER_E8 {
        x86_transform(data, file_offset, false, true)
    } else if filter_type == FILTER_E8E9 {
        x86_transform(data, file_offset, true, true)
    } else if filter_type == FILTER_ARM {
        arm_transform(data, file_offset, true)
    } else {
        vstd::slice::slice_to_vec(data)
    }
}

/// Undo the transform of a region.
pub fn apply_filter_decode(filter_type: u8, data: &[u8], channels: u8, file_offset: u64) -> (r: Result<
    Vec<u8>,
    CodecError,
>)
    ensures
        filter_type <= FILTER_ARM ==> r is Ok && r->Ok_0@ == filter_decoded(
            filter_type,
            data@,
            channels,
            file_offset as int,
        ) && r->Ok_0@.len() == data@.len(),
        filter_type > FILTER_ARM ==> r == Err::<Vec<u8>, CodecError>(
            CodecError::UnknownFilter { filter_type },
        ),
{
    proof {
        lemma_filter_len(filter_type, data@, channels, file_offset as int);
    }
    if filter_type == FILTER_DELTA {
        let c: usize = if channels == 0 { 1 } else { channels as usize };
        Ok(delta_decode(data, c))
    } else if filter_type == FILTER_E8 {
        Ok(x86_transform(data, file_offset, false, false))
    } else if filter_type == FILTER_E8E9 {
        Ok(x86_transform(data, file_offset, true, false))
    } else if filter_type == FILTER_ARM {
        Ok(arm_transform(data, file_offset, false))
    } else {
        Err(CodecError::UnknownFilter { filter_type })
    }
}

// ── Scanning for code ──────────────────────────────────────────────────────

/// A part of a byte string, from `start` up to `end`.
#[derive(Clone, Copy, Debug, PartialEq, Eq, Structural)]
pub struct Span {
    pub start: usize,
    pub end: usize,
}

/// Largest distance between two opcodes of one stretch of code.
pub const X86_MAX_GAP: usize = 256;

/// Fewest opcodes of a stretch worth filtering.
pub const X86_MIN_OPS: usize = 16;

/// A call, or with `with_e9` a jump, to a plausible target stands at `i`.
pub open spec fn x86_op_at(data: Seq<u8>, i: int, with_e9: bool) -> bool {
    let v = le32(data.subrange(i + 1, i + 5));
    (data[i] == 0xE8 || (with_e9 && data[i] == 0xE9)) && (v < X86_FILE_SIZE || v >= 0xFF00_0000)
}

/// The stretch from `first` to the opcode `last`, if it is worth filtering.
pub open spec fn x86_stretch(open: bool, first: int, last: int, ops: int) -> Seq<Span> {
    if open && ops >= X86_MIN_OPS {
        seq![Span { start: first as usize, end: (last + 5) as usize }]
    } else {
        Seq::empty()
    }
}

/// The stretches of code from `i` on; one that is `open` goes from `first` to
/// `last` so far and has `ops` opcodes.
pub open spec fn x86_stretches(
    data: Seq<u8>,
    with_e9: bool,
    i: int,
    open: bool,
    first: int,
    last: int,
    ops: int,
) -> Seq<Span>
    decreases data.len() - i,
{
    if data.len() - i <= 4 {
        x86_stretch(open, first, last, ops)
    } else if !x86_op_at(data, i, with_e9) {
        x86_stretches(data, with_e9, i + 1, open, first, last, ops)
    } else if open && i - last <= X86_MAX_GAP {
        x86_stretches(data, with_e9, i + 5, true, first, i, ops + 1)
    } else {
        x86_stretch(open, first, last, ops) + x86_stretches(data, with_e9, i + 5, true, i, i, 1)
    }
}

/// The stretches of `data` that look like x86 code: at least sixteen opcodes
/// with plausible targets, none farther than 256 bytes from the one before.
pub open spec fn x86_ranges(data: Seq<u8>, with_e9: bool) -> Seq<Span> {
    x86_stretches(data, with_e9, 0, false, 0, 0, 0)
}

/// Find stretches that look like x86 code: opcodes close together whose
/// targets are plausible.
pub fn auto_x86_filter_ranges(data: &[u8], with_e9: bool) -> (ranges: Vec<Span>)
    ensures
        ranges@ == x86_ranges(data@, with_e9),
        forall|i: int|
            0 <= i < ranges@.len() ==> (#[trigger] ranges@[i]).start < ranges@[i].end
                && ranges@[i].end <= data@.len(),
{
    let n: usize = data.len();
    let mut ranges: Vec<Span> = Vec::new();
    let mut open: bool = false;
    let mut first: usize = 0;
    let mut last: usize = 0;
    let mut ops: usize = 0;
    let mut i: usize = 0;
    proof {
        assert(ranges@ + x86_ranges(data@, with_e9) =~= x86_ranges(data@, with_e9));
    }
    while n - i > 4
        invariant
            i <= n,
            n == data@.len(),
            open ==> first <= last && last < i && last + 5 <= n,
            ops <= i,
            ranges@ + x86_stretches(
                data@,
                with_e9,
                i as int,
                open,
                first as int,
                last as int,
                ops as int,
            ) == x86_ranges(data@, with_e9),
            forall|j: int|
                0 <= j < ranges@.len() ==> (#[trigger] ranges@[j]).start < ranges@[j].end
                    && ranges@[j].end <= n,
        decreases n - i,
    {
        let b: u8 = data[i];
        if b == 0xE8 || (with_e9 && b == 0xE9) {
            let v: u32 = load_le32(data, i + 1);
            if v < X86_FILE_SIZE || v >= 0xFF00_0000 {
                assert(x86_op_at(data@, i as int, with_e9));
                if open && i - last <= X86_MAX_GAP {
                    last = i;
                    ops = ops + 1;
                } else {
                    let ghost before = ranges@;
                    let ghost stretch = x86_stretch(open, first as int, last as int, ops as int);
                    let ghost more = x86_stretches(
                        data@,
                        with_e9,
                        i + 5,
                        true,
                        i as int,
                        i as int,
                        1,
                    );
                    if open && ops >= X86_MIN_OPS {
                        ranges.push(Span { start: first, end: last + 5 });
                    }
                    proof {
                        assert(ranges@ =~= before + stretch);
                        assert(before + (stretch + more) =~= ranges@ + more);
                    }
                    open = true;
                    first = i;
                    last = i;
                    ops = 1;
                }
                i = i + 5;
            } else {
                assert(!x86_op_at(data@, i as int, with_e9));
                i = i + 1;
            }
        } else {
            i = i + 1;
        }
    }
    let ghost before = ranges@;
    if open && ops >= X86_MIN_OPS {
        ranges.push(Span { start: first, end: last + 5 });
    }
    assert(ranges@ =~= before + x86_stretch(open, first as int, last as int, ops as int));
    ranges
}

} // verus!
