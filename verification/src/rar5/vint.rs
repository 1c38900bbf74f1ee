//! Variable-length integers: seven bits per byte, least significant first,
//! the high bit set on every byte but the last.

use vstd::prelude::*;
use vstd::string::*;

verus! {

/// Longest encoding of a 64-bit number.
pub const MAX_VINT_BYTES: usize = 10;

/// Why no number could be read.
#[derive(Debug, Clone, Copy, PartialEq, Eq, Structural)]
pub enum VintError {
    /// The data ends inside the number.
    UnexpectedEnd,
    /// The number has more than ten bytes or does not fit 64 bits.
    TooLong,
}

impl VintError {
    /// The error in words.
    pub open spec fn spec_message(self) -> Seq<char> {
        match self {
            VintError::UnexpectedEnd => "unexpected end of data"@,
            VintError::TooLong => "variable-length integer is too long"@,
        }
    }

    /// The error in words.
    pub fn message(self) -> (s: &'static str)
        ensures
            s@ == self.spec_message(),
    {
        match self {
            VintError::UnexpectedEnd => "unexpected end of data",
            VintError::TooLong => "variable-length integer is too long",
        }
    }
}

/// The number that starts `s`, of at most `room` bytes, and its length.
pub open spec fn vint_digits(s: Seq<u8>, room: nat) -> Result<(nat, nat), VintError>
    decreases room,
{
    if room == 0 {
        Err(VintError::TooLong)
    } else if s.len() == 0 {
        Err(VintError::UnexpectedEnd)
    } else if s[0] < 128 {
        Ok((s[0] as nat, 1))
    } else {
        match vint_digits(s.drop_first(), (room - 1) as nat) {
            Ok((v, n)) => Ok(((s[0] - 128) as nat + 128 * v, n + 1)),
            Err(e) => Err(e),
        }
    }
}

/// The 64-bit number that starts `s`, and the number of its bytes.
pub open spec fn vint_at(s: Seq<u8>) -> Result<(nat, nat), VintError> {
    match vint_digits(s, MAX_VINT_BYTES as nat) {
        Ok((v, n)) => if v <= u64::MAX {
            Ok((v, n))
        } else {
            Err(VintError::TooLong)
        },
        Err(e) => Err(e),
    }
}

/// The bytes of `v`.
pub open spec fn vint_bytes(v: nat) -> Seq<u8>
    decreases v,
{
    if v < 128 {
        seq![v as u8]
    } else {
        seq![(128 + v % 128) as u8] + vint_bytes(v / 128)
    }
}

/// 128 to the power `n`.
pub open spec fn vint_range(n: nat) -> nat
    decreases n,
{
    if n == 0 {
        1
    } else {
        128 * vint_range((n - 1) as nat)
    }
}

/// A number read has at least one byte and lies inside its data.
pub proof fn lemma_vint_inside(s: Seq<u8>, room: nat)
    ensures
        vint_digits(s, room) matches Ok((v, n)) ==> 1 <= n <= s.len() && n <= room && v
            < vint_range(n),
    decreases room,
{
    if room > 0 && s.len() > 0 {
        lemma_vint_inside(s.drop_first(), (room - 1) as nat);
        if s[0] < 128 {
            assert(vint_range(1) == 128 * vint_range(0));
        } else if let Ok((v, n)) = vint_digits(s.drop_first(), (room - 1) as nat) {
            assert(vint_range(n + 1) == 128 * vint_range(n));
        }
    }
}

proof fn lemma_digits_of_bytes(v: nat, rest: Seq<u8>, room: nat)
    requires
        v < vint_range(room),
        room > 0,
    ensures
        vint_digits(vint_bytes(v) + rest, room) == Ok::<(nat, nat), VintError>(
            (v, vint_bytes(v).len()),
        ),
        1 <= vint_bytes(v).len() <= room,
    decreases room,
{
    let s = vint_bytes(v) + rest;
    if v >= 128 {
        let up = (room - 1) as nat;
        if room == 1 {
            assert(vint_range(1) == 128 * vint_range(0));
        }
        assert(v / 128 < vint_range(up));
        lemma_digits_of_bytes(v / 128, rest, up);
        assert(s.drop_first() =~= vint_bytes(v / 128) + rest);
        assert(s[0] == 128 + v % 128);
    } else {
        assert(s[0] == v);
    }
}

/// Reading the bytes of a number gives the number, whatever follows them.
pub proof fn lemma_vint_roundtrip(v: u64, rest: Seq<u8>)
    ensures
        vint_at(vint_bytes(v as nat) + rest) == Ok::<(nat, nat), VintError>(
            (v as nat, vint_bytes(v as nat).len()),
        ),
        1 <= vint_bytes(v as nat).len() <= MAX_VINT_BYTES,
{
    reveal_with_fuel(vint_range, 11);
    lemma_digits_of_bytes(v as nat, rest, MAX_VINT_BYTES as nat);
}

fn decode_digits(data: &[u8], at: usize, room: usize) -> (r: Result<(u128, usize), VintError>)
    requires
        at <= data@.len(),
        room <= MAX_VINT_BYTES,
    ensures
        match (r, vint_digits(data@.skip(at as int), room as nat)) {
            (Ok((v, n)), Ok((w, m))) => v == w && n == m,
            (Err(a), Err(b)) => a == b,
            _ => false,
        },
    decreases room,
{
    if room == 0 {
        return Err(VintError::TooLong);
    }
    if at >= data.len() {
        return Err(VintError::UnexpectedEnd);
    }
    let b = data[at];
    if b < 128 {
        return Ok((b as u128, 1));
    }
    proof {
        assert(data@.skip(at as int).drop_first() =~= data@.skip(at + 1));
        lemma_vint_inside(data@.skip(at + 1), (room - 1) as nat);
        reveal_with_fuel(vint_range, 11);
        if let Ok((v, n)) = vint_digits(data@.skip(at + 1), (room - 1) as nat) {
            lemma_vint_range_le(n, 9);
        }
    }
    match decode_digits(data, at + 1, room - 1) {
        Ok((v, n)) => Ok(((b - 128) as u128 + 128 * v, n + 1)),
        Err(e) => Err(e),
    }
}

proof fn lemma_vint_range_le(a: nat, b: nat)
    requires
        a <= b,
    ensures
        vint_range(a) <= vint_range(b),
    decreases b,
{
    if a < b {
        lemma_vint_range_le(a, (b - 1) as nat);
    }
}

/// The number at `offset` in `data`, and its length in bytes.
pub fn decode_from_slice(data: &[u8], offset: usize) -> (r: Result<(u64, usize), VintError>)
    requires
        offset <= data@.len(),
    ensures
        match (r, vint_at(data@.skip(offset as int))) {
            (Ok((v, n)), Ok((w, m))) => v == w && n == m && 1 <= n && offset + n <= data@.len() && n
                <= MAX_VINT_BYTES,
            (Err(a), Err(b)) => a == b,
            _ => false,
        },
{
    proof {
        lemma_vint_inside(data@.skip(offset as int), MAX_VINT_BYTES as nat);
    }
    match decode_digits(data, offset, MAX_VINT_BYTES) {
        Ok((v, n)) => {
            if v <= u64::MAX as u128 {
                Ok((v as u64, n))
            } else {
                Err(VintError::TooLong)
            }
        },
        Err(e) => Err(e),
    }
}

/// Append the bytes of `v`.
pub fn push(out: &mut Vec<u8>, v: u64)
    ensures
        final(out)@ == old(out)@ + vint_bytes(v as nat),
    decreases v,
{
    let ghost before = out@;
    if v < 128 {
        out.push(v as u8);
    } else {
        out.push((128 + v % 128) as u8);
        push(out, v / 128);
    }
    assert(out@ =~= before + vint_bytes(v as nat));
}

/// The bytes of `v`.
pub fn encode(v: u64) -> (out: Vec<u8>)
    ensures
        out@ == vint_bytes(v as nat),
{
    let mut out = Vec::new();
    push(&mut out, v);
    assert(out@ =~= vint_bytes(v as nat));
    out
}

} // verus!
