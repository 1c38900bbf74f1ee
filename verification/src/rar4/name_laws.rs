//! How the bytes of a member name are read.

use crate::rar4::names::{compact_units, name_of, name_read, trimmed_len, zero_place};
use crate::unicode::{lossy_utf8_of, utf16_text};
use vstd::prelude::*;
use vstd::utf8::{decode_utf8, valid_utf8};

verus! {

/// Trailing zeros are no part of a name without the flag of two encodings, and
/// nothing else is cut.
pub proof fn lemma_trim_law(s: Seq<u8>)
    ensures
        0 <= trimmed_len(s) <= s.len(),
        forall|i: int| trimmed_len(s) <= i < s.len() ==> s[i] == 0,
        trimmed_len(s) > 0 ==> s[trimmed_len(s) - 1] != 0,
    decreases s.len(),
{
    if s.len() > 0 && s.last() == 0 {
        lemma_trim_law(s.drop_last());
        assert forall|i: int| trimmed_len(s) <= i < s.len() implies s[i] == 0 by {
            if i < s.len() - 1 {
                assert(s.drop_last()[i] == s[i]);
            }
        }
        if trimmed_len(s) > 0 {
            assert(s.drop_last()[trimmed_len(s) - 1] == s[trimmed_len(s) - 1]);
        }
    }
}

/// The two encodings of a name are parted by the first zero.
pub proof fn lemma_zero_law(s: Seq<u8>)
    ensures
        0 <= zero_place(s) <= s.len(),
        forall|i: int| 0 <= i < zero_place(s) ==> s[i] != 0,
        zero_place(s) < s.len() ==> s[zero_place(s)] == 0,
    decreases s.len(),
{
    if s.len() > 0 && s[0] != 0 {
        lemma_zero_law(s.skip(1));
        assert forall|i: int| 0 <= i < zero_place(s) implies s[i] != 0 by {
            if i > 0 {
                assert(s.skip(1)[i - 1] == s[i]);
            }
        }
        if zero_place(s) < s.len() {
            assert(s.skip(1)[zero_place(s) - 1] == s[zero_place(s)]);
        }
    }
}

/// A name without the flag 0x200 is its bytes up to trailing zeros: UTF-8 where
/// they are, else what the system's code page says, else a stand-in.
pub proof fn lemma_plain_name_law(raw: Seq<u8>, flags: u16, n: int, system: Option<Seq<char>>)
    requires
        flags & 0x200 == 0,
        0 <= n <= raw.len(),
        forall|i: int| n <= i < raw.len() ==> raw[i] == 0,
        n > 0 ==> raw[n - 1] != 0,
    ensures
        valid_utf8(raw.take(n)) ==> name_read(raw, flags, system) == decode_utf8(raw.take(n)),
        !valid_utf8(raw.take(n)) && system is Some ==> name_read(raw, flags, system)
            == system->Some_0,
        !valid_utf8(raw.take(n)) && system is None ==> name_read(raw, flags, system)
            == lossy_utf8_of(raw.take(n)),
        name_of(raw, flags) == name_read(raw, flags, None),
{
    lemma_trim_law(raw);
    let t = trimmed_len(raw);
    if t < n {
        assert(raw[n - 1] == 0);
    }
    if n < t {
        assert(raw[t - 1] == 0);
    }
}

/// A name with the flag 0x200 is, behind the first zero, a high byte and a
/// compact form of UTF-16 that may refer to what stands before the zero.
pub proof fn lemma_double_name_law(plain: Seq<u8>, high: u8, encoded: Seq<u8>, flags: u16)
    requires
        flags & 0x200 != 0,
        forall|i: int| 0 <= i < plain.len() ==> plain[i] != 0,
    ensures
        ({
            let raw = plain + seq![0u8, high] + encoded;
            match compact_units(encoded, 0, 0, high as int, plain, 0) {
                Some(units) => name_of(raw, flags) == utf16_text(units),
                None => name_of(raw, flags) == lossy_utf8_of(raw),
            }
        }),
        name_of(plain, flags) == lossy_utf8_of(plain),
        name_of(plain.push(0), flags) == lossy_utf8_of(plain),
{
    let raw = plain + seq![0u8, high] + encoded;
    lemma_zero_law(raw);
    lemma_zero_law(plain);
    lemma_zero_law(plain.push(0));
    let z = plain.len() as int;
    assert(raw[z] == 0);
    if zero_place(raw) < z {
        assert(raw[zero_place(raw)] == plain[zero_place(raw)]);
    }
    if zero_place(plain) < z {
        assert(plain[zero_place(plain)] == 0);
    }
    let p = plain.push(0);
    if zero_place(p) < z {
        assert(p[zero_place(p)] == plain[zero_place(p)]);
    }
    assert(p[z] == 0);
    assert(raw.take(z) =~= plain);
    assert(p.take(z) =~= plain);
    assert(raw.skip(z + 2) =~= encoded);
}

/// The compact form: a byte of four two-bit modes, highest first, and what each
/// takes. Mode 0 is a unit below 256; mode 1 one with the high byte given; mode
/// 2 any unit, lowest byte first; mode 3 copies units from the plain name, and
/// changes them where its length byte has the high bit.
pub proof fn lemma_compact_law(
    s: Seq<u8>,
    high: u8,
    plain: Seq<u8>,
    at: int,
    u: Seq<u16>,
)
    requires
        s.len() >= 3,
        0 <= at,
        compact_units(s, 0, 0, high as int, plain, at) == Some(u),
    ensures
        s[0] < 64 ==> u.len() > 0 && u[0] == s[1] && compact_units(
            s.skip(2),
            (4 * s[0]) % 256,
            3,
            high as int,
            plain,
            at + 1,
        ) == Some(u.skip(1)),
        64 <= s[0] < 128 ==> u.len() > 0 && u[0] == 256 * high + s[1] && compact_units(
            s.skip(2),
            (4 * s[0]) % 256,
            3,
            high as int,
            plain,
            at + 1,
        ) == Some(u.skip(1)),
        128 <= s[0] < 192 ==> u.len() > 0 && u[0] == s[1] + 256 * s[2] && compact_units(
            s.skip(3),
            (4 * s[0]) % 256,
            3,
            high as int,
            plain,
            at + 1,
        ) == Some(u.skip(1)),
        s[0] >= 192 && s[1] < 128 && at + s[1] + 2 <= plain.len() ==> u.len() >= s[1] + 2 && (
        forall|i: int| 0 <= i < s[1] + 2 ==> #[trigger] u[i] == plain[at + i]),
        s[0] >= 192 && s[1] >= 128 && at + s[1] - 126 <= plain.len() ==> u.len() >= s[1] - 126 && (
        forall|i: int|
            0 <= i < s[1] - 126 ==> #[trigger] u[i] == (plain[at + i] + s[2]) % 256 + 256 * high),
{
    let t = s.skip(1);
    assert(t[0] == s[1]);
    assert(t[1] == s[2]);
    assert(t.skip(1) =~= s.skip(2));
    assert(t.skip(2) =~= s.skip(3));
    let f = s[0] as int;
    assert(f / 64 == if f < 64 {
        0int
    } else if f < 128 {
        1
    } else if f < 192 {
        2
    } else {
        3
    });
    let one = if f < 64 {
        s[1] as u16
    } else if f < 128 {
        (high * 256 + s[1]) as u16
    } else {
        (s[2] * 256 + s[1]) as u16
    };
    if f < 192 {
        let rest = compact_units(
            if f < 128 {
                s.skip(2)
            } else {
                s.skip(3)
            },
            (f * 4) % 256,
            3,
            high as int,
            plain,
            at + 1,
        );
        assert(u == seq![one] + rest->Some_0);
        assert(u.skip(1) =~= rest->Some_0);
    }
}

} // verus!
