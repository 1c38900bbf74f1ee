//! The sliding window of the decoder: the most recent output, in a ring.

use vstd::arithmetic::div_mod::*;
use vstd::arithmetic::power2::*;
use vstd::prelude::*;

verus! {

/// The byte `e` places back from the end of `out`; zero before its start.
pub open spec fn byte_back(out: Seq<u8>, e: int) -> u8 {
    if e <= out.len() {
        out[out.len() - e]
    } else {
        0
    }
}

/// The distance, from 1 to `n`, that a window of `n` bytes reads for `dist`.
pub open spec fn window_distance(n: int, dist: int) -> int {
    if dist % n == 0 {
        n
    } else {
        dist % n
    }
}

/// `out` after copying `len` bytes from `dist` back through a window of `n`
/// bytes, one byte after the other.
pub open spec fn copied(out: Seq<u8>, n: int, dist: int, len: nat) -> Seq<u8>
    decreases len,
{
    if len == 0 {
        out
    } else {
        let o = copied(out, n, dist, (len - 1) as nat);
        o.push(byte_back(o, window_distance(n, dist)))
    }
}

pub proof fn lemma_copied_len(out: Seq<u8>, n: int, dist: int, len: nat)
    ensures
        copied(out, n, dist, len).len() == out.len() + len,
        copied(out, n, dist, len).subrange(0, out.len() as int) =~= out,
    decreases len,
{
    if len > 0 {
        lemma_copied_len(out, n, dist, (len - 1) as nat);
    }
}

/// What a window of `n` bytes holds of `written` when asked for `len` bytes
/// from stream position `start` on.
pub open spec fn window_output(written: Seq<u8>, n: int, start: int, len: nat) -> Seq<u8> {
    Seq::new(
        len,
        |i: int| byte_back(written, window_distance(n, written.len() - start - i)),
    )
}

/// As long as nothing was overwritten, the window gives back the stream.
pub proof fn lemma_window_output(written: Seq<u8>, n: int, start: int, len: nat)
    requires
        n > 0,
        0 <= start,
        start + len <= written.len(),
        written.len() - start <= n,
    ensures
        window_output(written, n, start, len) == written.subrange(start, start + len),
{
    assert forall|i: int| 0 <= i < len implies window_output(written, n, start, len)[i]
        == written.subrange(start, start + len)[i] by {
        let e = written.len() - start - i;
        if e == n {
            lemma_mod_self_0(n);
        } else {
            lemma_small_mod(e as nat, n as nat);
        }
    }
    assert(window_output(written, n, start, len) =~= written.subrange(start, start + len));
}

/// A ring of the most recent bytes of a growing stream.
pub struct SlidingWindow {
    buf: Vec<u8>,
    pos: usize,
    total_written: u64,
    written: Ghost<Seq<u8>>,
}

impl View for SlidingWindow {
    type V = Seq<u8>;

    /// Everything written since the window was made.
    closed spec fn view(&self) -> Seq<u8> {
        self.written@
    }
}

impl SlidingWindow {
    /// How many bytes the ring holds.
    pub closed spec fn capacity(&self) -> int {
        self.buf@.len() as int
    }

    pub closed spec fn write_pos(&self) -> int {
        self.pos as int
    }

    pub closed spec fn wf(&self) -> bool {
        let n = self.buf@.len() as int;
        let out = self.written@;
        &&& n > 0
        &&& self.pos < n
        &&& self.pos == out.len() % (n as nat)
        &&& self.total_written == out.len()
        &&& forall|j: int|
            0 <= j < n ==> #[trigger] self.buf@[j] == byte_back(
                out,
                if j < self.pos {
                    self.pos - j
                } else {
                    self.pos - j + n
                },
            )
    }

    /// A window is not empty.
    pub proof fn lemma_capacity(&self)
        requires
            self.wf(),
        ensures
            0 < self.capacity(),
    {
    }

    /// Create a new window of the given size (must be a power of 2).
    pub fn new(size: usize) -> (w: SlidingWindow)
        requires
            is_pow2(size as int),
        ensures
            w.wf(),
            w.capacity() == size,
            w@ == Seq::<u8>::empty(),
            w.write_pos() == 0,
    {
        proof {
            reveal(is_pow2);
            lemma_small_mod(0, size as nat);
        }
        let buf: Vec<u8> = vec![0u8; size];
        SlidingWindow { buf, pos: 0, total_written: 0, written: Ghost(Seq::empty()) }
    }

    /// The place in the ring that the next byte goes to.
    pub fn position(&self) -> (p: usize)
        requires
            self.wf(),
        ensures
            p == self.write_pos(),
            p == self@.len() % (self.capacity() as nat),
    {
        self.pos
    }

    /// The size of the ring.
    pub fn size(&self) -> (n: usize)
        ensures
            n == self.capacity(),
    {
        self.buf.len()
    }

    /// How many bytes were written in all.
    pub fn total_written(&self) -> (n: u64)
        requires
            self.wf(),
        ensures
            n == self@.len(),
    {
        self.total_written
    }

    /// Write a single literal byte.
    pub fn put_byte(&mut self, b: u8)
        requires
            old(self).wf(),
            old(self)@.len() < u64::MAX,
        ensures
            final(self).wf(),
            final(self).capacity() == old(self).capacity(),
            final(self)@ == old(self)@.push(b),
    {
        let n: usize = self.buf.len();
        let ghost out = self.written@;
        let ghost more = out.push(b);
        proof {
            lemma_next_mod(out.len(), n as nat);
        }
        self.buf.set(self.pos, b);
        self.pos = if self.pos + 1 == n {
            0
        } else {
            self.pos + 1
        };
        self.total_written = self.total_written + 1;
        self.written = Ghost(more);
    }

    /// Copy `length` bytes from `dist` bytes back.
    /// Handles overlapping copies correctly.
    pub fn copy_match(&mut self, dist: usize, length: usize)
        requires
            old(self).wf(),
            old(self)@.len() + length <= u64::MAX,
        ensures
            final(self).wf(),
            final(self).capacity() == old(self).capacity(),
            final(self)@ == copied(
                old(self)@,
                old(self).capacity(),
                dist as int,
                length as nat,
            ),
    {
        let n: usize = self.buf.len();
        let d: usize = dist % n;
        let mut src: usize = if d <= self.pos {
            self.pos - d
        } else {
            self.pos + (n - d)
        };
        let mut i: usize = 0;
        let ghost e = window_distance(n as int, dist as int);
        while i < length
            invariant
                i <= length,
                self.wf(),
                n == self.buf@.len(),
                self.capacity() == old(self).capacity(),
                n == self.capacity(),
                old(self)@.len() + length <= u64::MAX,
                self@.len() == old(self)@.len() + i,
                self@ == copied(old(self)@, n as int, dist as int, i as nat),
                e == window_distance(n as int, dist as int),
                1 <= e <= n,
                src == if e <= self.pos {
                    self.pos - e
                } else {
                    self.pos - e + n
                },
            decreases length - i,
        {
            let b: u8 = self.buf[src];
            assert(b == byte_back(self@, e));
            proof {
                lemma_next_mod(self@.len(), n as nat);
            }
            self.put_byte(b);
            src = if src + 1 == n {
                0
            } else {
                src + 1
            };
            i = i + 1;
        }
    }

    /// Read the byte `dist` positions back from the current write position.
    pub fn get_byte_at(&self, dist: usize) -> (b: u8)
        requires
            self.wf(),
        ensures
            b == byte_back(self@, window_distance(self.capacity(), dist as int)),
    {
        let n: usize = self.buf.len();
        let d: usize = dist % n;
        let src: usize = if d <= self.pos {
            self.pos - d
        } else {
            self.pos + (n - d)
        };
        self.buf[src]
    }

    /// Extract `length` bytes starting from a total-written offset.
    pub fn get_output(&self, start_total: u64, length: usize) -> (out: Vec<u8>)
        requires
            self.wf(),
            length <= self.capacity(),
            start_total <= self@.len(),
        ensures
            out@ == window_output(self@, self.capacity(), start_total as int, length as nat),
            out@.len() == length,
    {
        let n: usize = self.buf.len();
        let offset: u64 = self.total_written - start_total;
        let d: usize = (offset % n as u64) as usize;
        let start_pos: usize = if d <= self.pos {
            self.pos - d
        } else {
            self.pos + (n - d)
        };
        let mut out: Vec<u8> = Vec::with_capacity(length);
        if length <= n - start_pos {
            let part = vstd::slice::slice_subrange(
                self.buf.as_slice(),
                start_pos,
                start_pos + length,
            );
            out.extend_from_slice(part);
        } else {
            let first: usize = n - start_pos;
            let head = vstd::slice::slice_subrange(self.buf.as_slice(), start_pos, n);
            let rest = vstd::slice::slice_subrange(self.buf.as_slice(), 0, length - first);
            out.extend_from_slice(head);
            out.extend_from_slice(rest);
        }
        proof {
            let w = window_output(self@, n as int, start_total as int, length as nat);
            assert forall|i: int| 0 <= i < length implies out@[i] == w[i] by {
                let j = if i < n - start_pos {
                    start_pos + i
                } else {
                    start_pos + i - n
                };
                assert(out@[i] == self.buf@[j]);
                let e = if j < self.pos {
                    self.pos - j
                } else {
                    self.pos - j + n
                };
                let q = offset as int / n as int;
                lemma_fundamental_div_mod(offset as int, n as int);
                let k = offset - i;
                if e < n {
                    if k == n * q + e {
                        lemma_mod_of(k, n as int, q, e);
                    } else if k == n * q + e - n {
                        assert(k == n * (q - 1) + e) by (nonlinear_arith)
                            requires
                                k == n * q + e - n,
                        ;
                        lemma_mod_of(k, n as int, q - 1, e);
                    } else {
                        assert(k == n * (q + 1) + e) by (nonlinear_arith)
                            requires
                                k == n * q + e + n,
                        ;
                        lemma_mod_of(k, n as int, q + 1, e);
                    }
                } else {
                    if k == n * q {
                        lemma_mod_of(k, n as int, q, 0);
                    } else if k == n * q + n {
                        assert(k == n * (q + 1)) by (nonlinear_arith)
                            requires
                                k == n * q + n,
                        ;
                        lemma_mod_of(k, n as int, q + 1, 0);
                    } else {
                        assert(k == n * (q - 1)) by (nonlinear_arith)
                            requires
                                k == n * q - n,
                        ;
                        lemma_mod_of(k, n as int, q - 1, 0);
                    }
                }
                assert(window_distance(n as int, k) == e);
            }
            assert(out@ =~= w);
        }
        out
    }
}

proof fn lemma_mod_of(k: int, n: int, q: int, r: int)
    requires
        n > 0,
        0 <= r < n,
        k == n * q + r,
    ensures
        k % n == r,
{
    lemma_mod_multiples_vanish(q, r, n);
    lemma_small_mod(r as nat, n as nat);
}

proof fn lemma_next_mod(a: nat, n: nat)
    requires
        n > 0,
    ensures
        (a + 1) % n == if a % n + 1 == n {
            0
        } else {
            a % n + 1
        },
{
    let q = a as int / n as int;
    lemma_fundamental_div_mod(a as int, n as int);
    if a % n + 1 == n {
        assert(a + 1 == n * (q + 1)) by (nonlinear_arith)
            requires
                a + 1 == n * q + n,
        ;
        lemma_mod_of((a + 1) as int, n as int, q + 1, 0);
    } else {
        lemma_mod_of((a + 1) as int, n as int, q, a as int % n as int + 1);
    }
}

} // verus!
