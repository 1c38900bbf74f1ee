//! RAR5 (and RAR7/v70) native LZSS+Huffman codec: the entry points.

use crate::codec::decode::{
    decode_inner, decode_member, fresh_lz, given_back, output_fits, run_blocks, state_after,
    DecoderState,
};
use crate::codec::error::CodecError;
use crate::codec::lz::Lz;
use vstd::arithmetic::power2::*;
use vstd::prelude::*;

verus! {

// ── Dictionary sizes ───────────────────────────────────────────────────────

/// The first of the powers of two from `p` on that is at least `b`.
pub open spec fn pow2_from(p: int, b: int) -> int
    decreases
            if p < b {
                b - p
            } else {
                0
            },
{
    if p <= 0 || p >= b {
        p
    } else {
        pow2_from(2 * p, b)
    }
}

/// The smallest power of two that is at least `b`.
pub open spec fn next_pow2(b: int) -> int {
    pow2_from(1, b)
}

/// The smallest power of two at or above `b`, where 64 bits hold it.
fn next_power_of_two(b: u64) -> (r: Option<u64>)
    ensures
        match r {
            Some(p) => p == next_pow2(b as int) && is_pow2(p as int) && p >= b && p
                <= 0x8000_0000_0000_0000,
            None => next_pow2(b as int) > u64::MAX,
        },
{
    let mut p: u64 = 1;
    proof {
        reveal(is_pow2);
    }
    while p < b
        invariant
            1 <= p <= 0x8000_0000_0000_0000,
            is_pow2(p as int),
            pow2_from(p as int, b as int) == next_pow2(b as int),
        decreases
                if p < b {
                    b - p
                } else {
                    0
                },
    {
        if p > 0x4000_0000_0000_0000 {
            proof {
                lemma_top_power(p as int);
                lemma_pow2_from(2 * p, b as int);
            }
            return None;
        }
        proof {
            reveal(is_pow2);
            assert((2 * p) / 2 == p);
        }
        p = p * 2;
    }
    Some(p)
}

proof fn lemma_top_power(p: int)
    requires
        is_pow2(p),
        0x4000_0000_0000_0000 < p <= 0x8000_0000_0000_0000,
    ensures
        p == 0x8000_0000_0000_0000,
{
    is_pow2_equiv(p);
    let i = choose|i: nat| vstd::arithmetic::power::pow(2, i) == p;
    lemma_pow2(i);
    lemma2_to64_rest();
    lemma2_to64();
    if i < 62 {
        lemma_pow2_strictly_increases(i, 62);
    }
    if i > 63 {
        lemma_pow2_strictly_increases(63, i);
    }
}

proof fn lemma_pow2_from(p: int, b: int)
    requires
        p > 0,
    ensures
        pow2_from(p, b) >= p,
    decreases
            if p < b {
                b - p
            } else {
                0
            },
{
    if p < b {
        lemma_pow2_from(2 * p, b);
    }
}

/// Rounding up does not lose anything.
pub proof fn lemma_next_pow2(b: int)
    ensures
        next_pow2(b) >= b,
        next_pow2(b) >= 1,
{
    lemma_pow2_reaches(1, b);
}

proof fn lemma_pow2_reaches(p: int, b: int)
    requires
        p > 0,
    ensures
        pow2_from(p, b) >= b,
        pow2_from(p, b) >= p,
    decreases
            if p < b {
                b - p
            } else {
                0
            },
{
    if p < b {
        lemma_pow2_reaches(2 * p, b);
    }
}

/// The decoder's dictionary size: that of a RAR5 size code, or the RAR7 byte
/// count, rounded up to a power of two.
pub open spec fn spec_dict_size(dict_size_log: u8, dict_size_bytes: Option<u64>) -> Result<
    int,
    CodecError,
> {
    match dict_size_bytes {
        Some(bytes) => if next_pow2(bytes as int) > usize::MAX {
            Err(CodecError::DictionaryTooLarge { bytes })
        } else {
            Ok(next_pow2(bytes as int))
        },
        None => if dict_size_log > 15 {
            Err(CodecError::DictionaryLog { log: dict_size_log })
        } else {
            let b = 131072 * pow2(dict_size_log as nat);
            if next_pow2(b as int) > usize::MAX {
                Err(CodecError::DictionaryTooLarge { bytes: b as u64 })
            } else {
                Ok(next_pow2(b as int))
            }
        },
    }
}

/// Compute and validate a decoder dictionary size.
///
/// For RAR5 (`dict_size_bytes == None`) the size comes from the 4-bit log
/// field (up to 4 GiB); for RAR7 the actual byte count is given (up to
/// 64 GiB, possibly non-power-of-two — the window rounds up to a power of
/// two).
pub fn dict_size(dict_size_log: u8, dict_size_bytes: Option<u64>) -> (r: Result<usize, CodecError>)
    ensures
        match spec_dict_size(dict_size_log, dict_size_bytes) {
            Ok(n) => r == Ok::<usize, CodecError>(n as usize) && is_pow2(n) && n > 0,
            Err(e) => r == Err::<usize, CodecError>(e),
        },
{
    let bytes: u64 = match dict_size_bytes {
        Some(bytes) => bytes,
        None => {
            if dict_size_log > 15 {
                return Err(CodecError::DictionaryLog { log: dict_size_log });
            }
            proof {
                lemma2_to64();
                if dict_size_log < 15 {
                    lemma_pow2_strictly_increases(dict_size_log as nat, 15);
                }
            }
            131072 * crate::codec::bits::shl_u64(1, dict_size_log as u32)
        },
    };
    match next_power_of_two(bytes) {
        Some(p) => {
            if p > usize::MAX as u64 {
                Err(CodecError::DictionaryTooLarge { bytes })
            } else {
                proof {
                    reveal(is_pow2);
                }
                Ok(p as usize)
            }
        },
        None => Err(CodecError::DictionaryTooLarge { bytes }),
    }
}

/// Compute and validate a decoder dictionary size, the error in words.
pub fn checked_dict_size(dict_size_log: u8, dict_size_bytes: Option<u64>) -> (r: Result<
    usize,
    String,
>)
    ensures
        match spec_dict_size(dict_size_log, dict_size_bytes) {
            Ok(n) => r is Ok && r->Ok_0 == n,
            Err(e) => r is Err && r->Err_0@ == e.spec_message(),
        },
{
    match dict_size(dict_size_log, dict_size_bytes) {
        Ok(n) => Ok(n),
        Err(e) => Err(e.message()),
    }
}

// ── Decoding ───────────────────────────────────────────────────────────────

/// Options for decoding one member.
///
/// `dict_size_log` sizes the window for standalone members only: when
/// `state` is carried (solid chains), the state owns its window and the
/// log is ignored by construction.
pub struct DecodeOptions<'a> {
    /// Dictionary size as log2(size/128KB), 0 = 128KB. Used when `state`
    /// is `None`.
    pub dict_size_log: u8,
    /// Actual dictionary size in bytes (RAR7, `comp_version` 1): may be
    /// non-power-of-two; the window rounds up to a power of two.
    pub dict_size_bytes: Option<u64>,
    /// RAR7 algorithm variant (extended distance codes, `v70`).
    pub extra_dist: bool,
    /// Shared decoder state for solid-chain continuity (`None` for
    /// standalone members).
    pub state: Option<&'a mut DecoderState>,
}

impl<'a> Default for DecodeOptions<'a> {
    fn default() -> (o: Self)
        ensures
            o.dict_size_log == 0,
            o.dict_size_bytes is None,
            !o.extra_dist,
            o.state is None,
    {
        DecodeOptions { dict_size_log: 0, dict_size_bytes: None, extra_dist: false, state: None }
    }
}

/// The window of a standalone member: the dictionary, or more where the
/// member is larger.
pub open spec fn standalone_window(
    dict_size_log: u8,
    dict_size_bytes: Option<u64>,
    unpacked_size: u64,
) -> Result<int, CodecError> {
    match spec_dict_size(dict_size_log, dict_size_bytes) {
        Err(e) => Err(e),
        Ok(n) => if unpacked_size > usize::MAX {
            Err(CodecError::OutputTooLarge)
        } else if unpacked_size <= n {
            Ok(n)
        } else if next_pow2(unpacked_size as int) > usize::MAX {
            Err(CodecError::WindowTooLarge)
        } else {
            Ok(next_pow2(unpacked_size as int))
        },
    }
}

/// Outcome of decoding a standalone member.
pub open spec fn standalone_result(
    data: Seq<u8>,
    unpacked_size: u64,
    dict_size_log: u8,
    dict_size_bytes: Option<u64>,
    extra_dist: bool,
) -> Result<Seq<u8>, CodecError> {
    match standalone_window(dict_size_log, dict_size_bytes, unpacked_size) {
        Err(e) => Err(e),
        Ok(n) => decode_member(data, unpacked_size as int, None, fresh_lz(), n, extra_dist),
    }
}

/// An executable result is the given outcome, the error in words.
pub open spec fn is_outcome(r: Result<Vec<u8>, String>, outcome: Result<Seq<u8>, CodecError>) -> bool {
    match outcome {
        Ok(v) => r is Ok && r->Ok_0@ == v,
        Err(e) => r is Err && r->Err_0@ == e.spec_message(),
    }
}

proof fn lemma_given_back(z: Lz, base: int, size: int, n: int)
    requires
        size <= n,
        0 <= size,
        base <= z.out.len(),
    ensures
        given_back(z, base, size) <= n,
{
}

/// Decode RAR5/RAR7 compressed data (standalone, no solid state).
pub fn decode_standalone(
    data: &[u8],
    unpacked_size: u64,
    dict_size_log: u8,
    dict_size_bytes: Option<u64>,
    extra_dist: bool,
) -> (r: Result<Vec<u8>, String>)
    requires
        data@.len() < 0x1000_0000_0000_0000,
    ensures
        is_outcome(
            r,
            standalone_result(data@, unpacked_size, dict_size_log, dict_size_bytes, extra_dist),
        ),
{
    let dict: usize = match dict_size(dict_size_log, dict_size_bytes) {
        Ok(n) => n,
        Err(e) => {
            return Err(e.message());
        },
    };
    // The decoder reconstructs the whole file in the sliding window before
    // extracting it, so the window must be at least as large as the unpacked
    // output.
    if unpacked_size > usize::MAX as u64 {
        return Err(CodecError::OutputTooLarge.message());
    }
    let window: usize = if unpacked_size <= dict as u64 {
        dict
    } else {
        match next_power_of_two(unpacked_size) {
            Some(p) => {
                if p > usize::MAX as u64 {
                    return Err(CodecError::WindowTooLarge.message());
                }
                p as usize
            },
            None => {
                return Err(CodecError::WindowTooLarge.message());
            },
        }
    };
    proof {
        lemma_dict_bound(dict_size_log, dict_size_bytes);
    }
    let mut state = DecoderState::new(window);
    proof {
        let z = fresh_lz();
        match run_blocks(
            data@,
            0,
            None,
            z,
            window as int,
            extra_dist,
            z.out.len() + unpacked_size,
        ) {
            Ok(v) => {
                if v.0.out.len() >= 0 {
                    lemma_given_back(v.0, 0, unpacked_size as int, window as int);
                }
            },
            Err(_) => {},
        }
    }
    match decode_inner(data, unpacked_size, &mut state, extra_dist) {
        Ok(v) => Ok(v),
        Err(e) => Err(e.message()),
    }
}

/// A dictionary size is at most half the address space.
proof fn lemma_dict_bound(dict_size_log: u8, dict_size_bytes: Option<u64>)
    ensures
        match spec_dict_size(dict_size_log, dict_size_bytes) {
            Ok(n) => n <= 0x8000_0000_0000_0000,
            Err(_) => true,
        },
{
    match dict_size_bytes {
        Some(b) => {
            lemma_next_pow2_top(1, b as int);
        },
        None => {
            lemma_next_pow2_top(1, 131072 * pow2(dict_size_log as nat) as int);
        },
    }
}

proof fn lemma_next_pow2_top(p: int, b: int)
    requires
        is_pow2(p) || p == 1,
        p > 0,
    ensures
        pow2_from(p, b) <= u64::MAX ==> pow2_from(p, b) <= 0x8000_0000_0000_0000,
    decreases
            if p < b {
                b - p
            } else {
                0
            },
{
    reveal(is_pow2);
    if p < b {
        assert((2 * p) / 2 == p);
        lemma_next_pow2_top(2 * p, b);
    } else if 0x8000_0000_0000_0000 < p <= u64::MAX {
        is_pow2_equiv(p);
        let i = choose|i: nat| vstd::arithmetic::power::pow(2, i) == p;
        lemma_pow2(i);
        lemma2_to64_rest();
        lemma2_to64();
        if i < 63 {
            lemma_pow2_strictly_increases(i, 63);
        }
        if i > 64 {
            lemma_pow2_strictly_increases(64, i);
        }
    }
}

/// Decode RAR5 compressed data into a buffer.
///
/// - `data`: raw compressed bytes (the data area from the file block)
/// - `unpacked_size`: expected decompressed size in bytes
pub fn decode(data: &[u8], unpacked_size: u64, opts: DecodeOptions<'_>) -> (r: Result<
    Vec<u8>,
    String,
>)
    requires
        data@.len() < 0x1000_0000_0000_0000,
        match opts.state {
            Some(s) => s.wf() && s.lz().out.len() + unpacked_size + 0x1_0000_2000 <= u64::MAX
                && output_fits(
                data@,
                unpacked_size as int,
                s.tabs(),
                s.lz(),
                s.core.window.capacity(),
                opts.extra_dist,
            ),
            None => true,
        },
    ensures
        match opts.state {
            Some(s) => {
                &&& final(s).wf()
                &&& final(s).core.window.capacity() == s.core.window.capacity()
                &&& is_outcome(
                    r,
                    decode_member(
                        data@,
                        unpacked_size as int,
                        s.tabs(),
                        s.lz(),
                        s.core.window.capacity(),
                        opts.extra_dist,
                    ),
                )
                &&& state_after(
                    data@,
                    unpacked_size as int,
                    s.tabs(),
                    s.lz(),
                    s.core.window.capacity(),
                    opts.extra_dist,
                    final(s).tabs(),
                    final(s).lz(),
                )
            },
            None => is_outcome(
                r,
                standalone_result(
                    data@,
                    unpacked_size,
                    opts.dict_size_log,
                    opts.dict_size_bytes,
                    opts.extra_dist,
                ),
            ),
        },
{
    match opts.state {
        Some(st) => match decode_inner(data, unpacked_size, st, opts.extra_dist) {
            Ok(v) => Ok(v),
            Err(e) => Err(e.message()),
        },
        None => decode_standalone(
            data,
            unpacked_size,
            opts.dict_size_log,
            opts.dict_size_bytes,
            opts.extra_dist,
        ),
    }
}

} // verus!
