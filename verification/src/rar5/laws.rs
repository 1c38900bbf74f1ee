//! What numbers and blocks of the RAR5 container are, byte by byte.

use crate::bytes::{le_bytes, lemma_lowest_first};
use crate::crc32::spec_crc32;
use crate::rar5::headers::framed;
use crate::rar5::vint::{vint_at, vint_bytes, vint_digits, VintError};
use vstd::prelude::*;

verus! {

/// A number is written seven bits at a time, the lowest first; every byte but
/// the last has its high bit set.
pub proof fn lemma_vint_write_law(v: nat)
    ensures
        v < 128 ==> vint_bytes(v) == seq![v as u8],
        v >= 128 ==> vint_bytes(v).len() > 1 && vint_bytes(v)[0] == 128 + v % 128 && vint_bytes(
            v,
        ).skip(1) == vint_bytes(v / 128),
    decreases v,
{
    if v >= 128 {
        lemma_vint_write_law(v / 128);
        assert(vint_bytes(v).skip(1) =~= vint_bytes(v / 128));
    }
}

/// A number is read in the same way; it has at most ten bytes, fits 64 bits,
/// and does not end with the data.
pub proof fn lemma_vint_read_law(s: Seq<u8>)
    ensures
        s.len() == 0 ==> vint_at(s) == Err::<(nat, nat), VintError>(VintError::UnexpectedEnd),
        s.len() > 0 && s[0] < 128 ==> vint_at(s) == Ok::<(nat, nat), VintError>((s[0] as nat, 1)),
        s.len() > 1 && s[0] >= 128 && s[1] < 128 ==> vint_at(s) == Ok::<(nat, nat), VintError>(
            ((s[0] - 128 + 128 * s[1]) as nat, 2),
        ),
        s.len() > 2 && s[0] >= 128 && s[1] >= 128 && s[2] < 128 ==> vint_at(s) == Ok::<
            (nat, nat),
            VintError,
        >(((s[0] - 128 + 128 * (s[1] - 128) + 16384 * s[2]) as nat, 3)),
        vint_at(s) matches Ok((v, n)) ==> n <= 10 && v <= u64::MAX && n <= s.len(),
        s.len() >= 10 && (forall|i: int| 0 <= i < 10 ==> s[i] >= 128) ==> vint_at(s) == Err::<
            (nat, nat),
            VintError,
        >(VintError::TooLong),
{
    reveal_with_fuel(vint_digits, 11);
    crate::rar5::vint::lemma_vint_inside(s, 10);
    if s.len() > 1 {
        assert(s.drop_first()[0] == s[1]);
    }
    if s.len() > 2 {
        assert(s.drop_first().drop_first()[0] == s[2]);
    }
    if s.len() >= 10 && (forall|i: int| 0 <= i < 10 ==> s[i] >= 128) {
        lemma_too_long(s, 10);
    }
}

proof fn lemma_too_long(s: Seq<u8>, room: nat)
    requires
        s.len() >= room,
        forall|i: int| 0 <= i < room ==> s[i] >= 128,
    ensures
        vint_digits(s, room) == Err::<(nat, nat), VintError>(VintError::TooLong),
    decreases room,
{
    if room > 0 {
        let t = s.drop_first();
        assert forall|i: int| 0 <= i < room - 1 implies t[i] >= 128 by {
            assert(t[i] == s[i + 1]);
        }
        lemma_too_long(t, (room - 1) as nat);
    }
}

/// A block starts with the CRC-32, lowest byte first, of all that follows: the
/// size of its header data as a number, and the header data.
pub proof fn lemma_frame_law(body: Seq<u8>)
    ensures
        ({
            let b = framed(body);
            let rest = vint_bytes(body.len()) + body;
            let crc = b[0] + 256 * b[1] + 65536 * b[2] + 16777216 * b[3];
            &&& b.len() == 4 + rest.len()
            &&& b.skip(4) == rest
            &&& crc == spec_crc32(rest)
        }),
{
    let b = framed(body);
    let rest = vint_bytes(body.len()) + body;
    let c = spec_crc32(rest) as nat;
    lemma_lowest_first(c, 4);
    assert(b.skip(4) =~= rest);
    assert(b[0] == le_bytes(c, 4)[0] && b[1] == le_bytes(c, 4)[1]);
    assert(b[2] == le_bytes(c, 4)[2] && b[3] == le_bytes(c, 4)[3]);
    assert(c == c % 256 + 256 * (c / 256 % 256) + 65536 * (c / 65536 % 256) + 16777216 * (c
        / 16777216 % 256));
}

} // verus!
