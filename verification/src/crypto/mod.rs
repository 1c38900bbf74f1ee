//! Ciphers and key derivation.

pub mod cbc;
pub mod laws;
pub mod params;
pub mod primitives;
pub mod rar13;
pub mod rar50;


use vstd::prelude::*;
use vstd::slice::slice_subrange;

verus! {

/// Characters of a password that count; what follows them is ignored.
pub const MAX_PASSWORD_CHARS: usize = 127;

/// Whether `b` continues a UTF-8 character.
pub open spec fn is_continuation(b: u8) -> bool {
    0x80 <= b < 0xc0
}

/// Length of the longest prefix of `s` with at most `chars` characters.
pub open spec fn clamp_len(s: Seq<u8>, chars: nat) -> nat
    decreases s.len(),
{
    if s.len() == 0 {
        0
    } else if is_continuation(s[0]) {
        1 + clamp_len(s.drop_first(), chars)
    } else if chars == 0 {
        0
    } else {
        1 + clamp_len(s.drop_first(), (chars - 1) as nat)
    }
}

/// The part of a password that counts.
pub open spec fn clamped(password: Seq<u8>) -> Seq<u8> {
    password.take(clamp_len(password, MAX_PASSWORD_CHARS as nat) as int)
}

pub proof fn lemma_clamp_len_le(s: Seq<u8>, chars: nat)
    ensures
        clamp_len(s, chars) <= s.len(),
    decreases s.len(),
{
    if s.len() > 0 {
        if is_continuation(s[0]) {
            lemma_clamp_len_le(s.drop_first(), chars);
        } else if chars > 0 {
            lemma_clamp_len_le(s.drop_first(), (chars - 1) as nat);
        }
    }
}

proof fn lemma_clamp_len_prefix(s: Seq<u8>, chars: nat)
    ensures
        clamp_len(s, chars) <= s.len(),
        clamp_len(s.take(clamp_len(s, chars) as int), chars) == clamp_len(s, chars),
    decreases s.len(),
{
    lemma_clamp_len_le(s, chars);
    if s.len() > 0 {
        let rest = s.drop_first();
        let n = clamp_len(s, chars);
        if is_continuation(s[0]) {
            lemma_clamp_len_prefix(rest, chars);
            assert(s.take(n as int).drop_first() =~= rest.take(n - 1));
        } else if chars > 0 {
            lemma_clamp_len_prefix(rest, (chars - 1) as nat);
            assert(s.take(n as int).drop_first() =~= rest.take(n - 1));
        }
    }
}

/// Clamping a clamped password changes nothing: a long password and the part
/// of it that counts are the same password.
pub proof fn lemma_clamp_idempotent(password: Seq<u8>)
    ensures
        clamped(clamped(password)) == clamped(password),
{
    lemma_clamp_len_prefix(password, MAX_PASSWORD_CHARS as nat);
    assert(clamped(clamped(password)) =~= clamped(password));
}

proof fn lemma_clamp_short(s: Seq<u8>, chars: nat)
    requires
        s.len() <= chars,
    ensures
        clamp_len(s, chars) == s.len(),
    decreases s.len(),
{
    if s.len() > 0 {
        if is_continuation(s[0]) {
            lemma_clamp_short(s.drop_first(), chars);
        } else {
            lemma_clamp_short(s.drop_first(), (chars - 1) as nat);
        }
    }
}

/// A password of at most 127 bytes counts whole.
pub proof fn lemma_short_password_is_whole(password: Seq<u8>)
    requires
        password.len() <= MAX_PASSWORD_CHARS,
    ensures
        clamped(password) == password,
{
    lemma_clamp_short(password, MAX_PASSWORD_CHARS as nat);
    assert(clamped(password) =~= password);
}

/// The first 127 characters of a password given as UTF-8 bytes.
pub fn clamp_password(password: &[u8]) -> (r: &[u8])
    ensures
        r@ == clamped(password@),
{
    let mut at: usize = 0;
    let mut left: usize = MAX_PASSWORD_CHARS;
    proof {
        assert(password@.skip(0) =~= password@);
    }
    while at < password.len()
        invariant
            at <= password@.len(),
            clamp_len(password@, MAX_PASSWORD_CHARS as nat) == at + clamp_len(
                password@.skip(at as int),
                left as nat,
            ),
        decreases password@.len() - at,
    {
        proof {
            assert(password@.skip(at as int).drop_first() =~= password@.skip(at + 1));
        }
        let b = password[at];
        if b < 0x80 || b >= 0xc0 {
            if left == 0 {
                return slice_subrange(password, 0, at);
            }
            left -= 1;
        }
        at += 1;
    }
    slice_subrange(password, 0, at)
}

/// Whether two byte strings are equal, with work that depends on their
/// lengths alone.
pub fn constant_time_eq(a: &[u8], b: &[u8]) -> (r: bool)
    ensures
        r == (a@ == b@),
{
    if a.len() != b.len() {
        return false;
    }
    let mut diff: u8 = 0;
    proof {
        assert(a@.take(0) =~= b@.take(0));
    }
    let mut i: usize = 0;
    while i < a.len()
        invariant
            a@.len() == b@.len(),
            i <= a@.len(),
            diff == 0 <==> a@.take(i as int) == b@.take(i as int),
        decreases a@.len() - i,
    {
        let x = a[i];
        let y = b[i];
        proof {
            lemma_diff(diff, x, y);
            let p = a@.take(i + 1);
            let q = b@.take(i + 1);
            assert(p.drop_last() =~= a@.take(i as int));
            assert(q.drop_last() =~= b@.take(i as int));
            assert(p =~= a@.take(i as int).push(x));
            assert(q =~= b@.take(i as int).push(y));
            if p == q {
                assert(p.last() == x && q.last() == y);
            }
        }
        diff = diff | (x ^ y);
        i += 1;
    }
    proof {
        assert(a@.take(i as int) =~= a@);
        assert(b@.take(i as int) =~= b@);
    }
    diff == 0
}

proof fn lemma_diff(diff: u8, x: u8, y: u8)
    ensures
        (diff | (x ^ y)) == 0 <==> diff == 0 && x == y,
{
    assert((diff | (x ^ y)) == 0 <==> diff == 0 && x == y) by (bit_vector);
}

} // verus!
