//! Member names: plain bytes, or a plain stand-in followed by a compact
//! UTF-16 form.
//!
//! The compact form is a stream of groups: a flag byte with four two-bit
//! modes, then the data of each mode. Mode 0 is a unit of one byte, mode 1 a
//! low byte under a shared high byte, mode 2 a whole unit, mode 3 a run of
//! the plain stand-in's bytes.

use crate::rar4::FHD_UNICODE;
use crate::unicode::{
    chars_of, decode_system_ansi, decode_utf16, encode_utf16, legacy_text, legacy_text_from,
    lemma_utf16_roundtrip, lossy_text, lossy_utf8_of, utf16_text, utf16_units,
};
use vstd::prelude::*;
use vstd::slice::slice_subrange;
use vstd::string::*;
use vstd::utf8::{encode_utf8, is_ascii_chars, is_ascii_chars_encode_utf8};

verus! {

/// A byte of the plain stand-in, or `?` behind its end.
pub open spec fn plain_at(plain: Seq<u8>, at: int) -> int {
    if 0 <= at < plain.len() {
        plain[at] as int
    } else {
        0x3f
    }
}

/// A run of the plain stand-in's bytes, each moved by `correction`, under the
/// high byte `high`.
pub open spec fn plain_run(
    plain: Seq<u8>,
    at: int,
    count: int,
    correction: int,
    high: int,
) -> Seq<u16> {
    Seq::new(
        count as nat,
        |i: int| (high * 256 + (plain_at(plain, at + i) + correction) % 256) as u16,
    )
}

/// `first`, followed by the rest if there is one.
pub open spec fn led(first: Seq<u16>, rest: Option<Seq<u16>>) -> Option<Seq<u16>> {
    match rest {
        Some(r) => Some(first + r),
        None => None,
    }
}

/// The units that the compact form `s` spells, where `modes` of the flag
/// byte's modes are left in `flag` and `at` units came before; nothing when
/// `s` ends inside a unit.
pub open spec fn compact_units(
    s: Seq<u8>,
    flag: int,
    modes: int,
    high: int,
    plain: Seq<u8>,
    at: int,
) -> Option<Seq<u16>>
    decreases s.len(),
{
    if s.len() == 0 {
        Some(Seq::empty())
    } else {
        let t = if modes == 0 {
            s.skip(1)
        } else {
            s
        };
        let f = if modes == 0 {
            s[0] as int
        } else {
            flag
        };
        let left = if modes == 0 {
            3
        } else {
            modes - 1
        };
        let mode = f / 64;
        let next = (f * 4) % 256;
        if t.len() == 0 {
            None
        } else if mode == 0 {
            led(seq![t[0] as u16], compact_units(t.skip(1), next, left, high, plain, at + 1))
        } else if mode == 1 {
            led(
                seq![(high * 256 + t[0]) as u16],
                compact_units(t.skip(1), next, left, high, plain, at + 1),
            )
        } else if mode == 2 {
            if t.len() < 2 {
                None
            } else {
                led(
                    seq![(t[1] * 256 + t[0]) as u16],
                    compact_units(t.skip(2), next, left, high, plain, at + 1),
                )
            }
        } else if t[0] >= 128 {
            if t.len() < 2 {
                None
            } else {
                let count = t[0] - 128 + 2;
                led(
                    plain_run(plain, at, count, t[1] as int, high),
                    compact_units(t.skip(2), next, left, high, plain, at + count),
                )
            }
        } else {
            let count = t[0] + 2;
            led(
                plain_run(plain, at, count, 0, 0),
                compact_units(t.skip(1), next, left, high, plain, at + count),
            )
        }
    }
}

/// The place of the first zero byte, or the length.
pub open spec fn zero_place(s: Seq<u8>) -> int
    decreases s.len(),
{
    if s.len() == 0 || s[0] == 0 {
        0
    } else {
        1 + zero_place(s.skip(1))
    }
}

/// The length without trailing zero bytes.
pub open spec fn trimmed_len(s: Seq<u8>) -> int
    decreases s.len(),
{
    if s.len() == 0 || s.last() != 0 {
        s.len() as int
    } else {
        trimmed_len(s.drop_last())
    }
}

/// The name that the bytes `raw` of a header with `flags` spell, where the
/// system has no code page of its own.
pub open spec fn name_of(raw: Seq<u8>, flags: u16) -> Seq<char> {
    name_read(raw, flags, None)
}

/// The name that the bytes `raw` of a header with `flags` spell. `system` is
/// what the system's code page makes of them, without trailing zero bytes.
pub open spec fn name_read(raw: Seq<u8>, flags: u16, system: Option<Seq<char>>) -> Seq<char> {
    if flags & FHD_UNICODE == 0 {
        legacy_text(raw.take(trimmed_len(raw)), system)
    } else {
        let z = zero_place(raw);
        if z >= raw.len() {
            lossy_utf8_of(raw)
        } else if z + 1 >= raw.len() {
            lossy_utf8_of(raw.take(z))
        } else {
            match compact_units(raw.skip(z + 2), 0, 0, raw[z + 1] as int, raw.take(z), 0) {
                Some(units) => utf16_text(units),
                None => lossy_utf8_of(raw),
            }
        }
    }
}

/// The plain stand-in of a name.
pub open spec fn plain_form(name: Seq<char>) -> Seq<u8> {
    Seq::new(
        name.len(),
        |i: int|
            if (name[i] as u32) < 128 {
                name[i] as u8
            } else {
                0x3fu8
            },
    )
}

/// The mode that a unit is written in.
pub open spec fn mode_of(unit: u16) -> int {
    if unit < 256 {
        0
    } else {
        2
    }
}

/// The data of one unit.
pub open spec fn unit_data(unit: u16) -> Seq<u8> {
    if unit < 256 {
        seq![unit as u8]
    } else {
        seq![(unit % 256) as u8, (unit / 256) as u8]
    }
}

/// The data of units.
pub open spec fn units_data(units: Seq<u16>) -> Seq<u8>
    decreases units.len(),
{
    if units.len() == 0 {
        Seq::empty()
    } else {
        unit_data(units[0]) + units_data(units.skip(1))
    }
}

/// The flag byte of up to four units, the first in the highest bits.
pub open spec fn flag_of(units: Seq<u16>) -> int {
    let m = |i: int|
        if i < units.len() {
            mode_of(units[i])
        } else {
            0
        };
    m(0) * 64 + m(1) * 16 + m(2) * 4 + m(3)
}

/// The compact form of units: groups of four.
pub open spec fn compact_form(units: Seq<u16>) -> Seq<u8>
    decreases units.len(),
{
    if units.len() == 0 {
        Seq::empty()
    } else if units.len() <= 4 {
        seq![flag_of(units) as u8] + units_data(units)
    } else {
        seq![flag_of(units.take(4)) as u8] + units_data(units.take(4)) + compact_form(units.skip(4))
    }
}

/// A name's bytes in a file header, and its flag: plain for a name of ASCII
/// characters, else a plain stand-in and the compact form.
pub open spec fn name_bytes(name: Seq<char>) -> (Seq<u8>, u16) {
    if is_ascii_chars(name) {
        (encode_utf8(name), 0)
    } else {
        (
            plain_form(name) + seq![0u8, 0xffu8] + compact_form(utf16_units(name)),
            FHD_UNICODE,
        )
    }
}

/// A group of at most four units, read back with what follows it.
proof fn lemma_group(
    units: Seq<u16>,
    flag: int,
    modes: int,
    high: int,
    plain: Seq<u8>,
    at: int,
    tail: Seq<u8>,
    rest: Seq<u16>,
)
    requires
        units.len() <= modes <= 4,
        modes > units.len() ==> tail.len() == 0,
        flag == shifted_flag(units),
        modes - units.len() > 0 || forall|f: int, a: int|
            compact_units(tail, f, 0, high, plain, a) == Some(rest),
        tail.len() == 0 ==> rest.len() == 0,
        modes > 0,
    ensures
        units.len() > 0 ==> compact_units(units_data(units) + tail, flag, modes, high, plain, at)
            == Some(units + rest),
    decreases units.len(),
{
    if units.len() > 0 {
        let u = units[0];
        let s = units_data(units) + tail;
        let d = unit_data(u);
        let more = units.skip(1);
        let next = (flag * 4) % 256;
        assert(s =~= d + (units_data(more) + tail));
        lemma_shift(units);
        assert(next == shifted_flag(more));
        let t = units_data(more) + tail;
        let left = modes - 1;
        if more.len() > 0 {
            lemma_group(more, next, left, high, plain, at + 1, tail, rest);
        } else {
            assert(t =~= tail);
            if left == 0 {
                assert(compact_units(tail, next, 0, high, plain, at + 1) == Some(rest));
            } else {
                assert(tail.len() == 0);
                assert(rest =~= Seq::<u16>::empty());
            }
            assert(more + rest =~= rest);
        }
        assert(compact_units(t, next, left, high, plain, at + 1) == Some(more + rest));
        assert(flag / 64 == mode_of(u));
        if u < 256 {
            assert(s.skip(1) =~= t);
            assert(seq![s[0] as u16] + (more + rest) =~= units + rest);
        } else {
            assert(s.skip(2) =~= t);
            assert(s[1] * 256 + s[0] == u);
            assert(seq![u] + (more + rest) =~= units + rest);
        }
    }
}

/// The modes of the units that are left, at the top of the byte.
spec fn shifted_flag(units: Seq<u16>) -> int {
    flag_of(units)
}

proof fn lemma_shift(units: Seq<u16>)
    requires
        0 < units.len() <= 4,
    ensures
        flag_of(units) / 64 == mode_of(units[0]),
        (flag_of(units) * 4) % 256 == flag_of(units.skip(1)),
        0 <= flag_of(units) < 256,
{
    let more = units.skip(1);
    assert(forall|i: int| 0 <= i < more.len() ==> more[i] == units[i + 1]);
    let m0 = mode_of(units[0]);
    let m1 = if 1 < units.len() {
        mode_of(units[1])
    } else {
        0
    };
    let m2 = if 2 < units.len() {
        mode_of(units[2])
    } else {
        0
    };
    let m3 = if 3 < units.len() {
        mode_of(units[3])
    } else {
        0
    };
    assert(flag_of(units) == m0 * 64 + m1 * 16 + m2 * 4 + m3);
    assert(flag_of(more) == m1 * 64 + m2 * 16 + m3 * 4);
}

/// The compact form of units spells them, whatever the plain stand-in.
pub proof fn lemma_compact_roundtrip(
    units: Seq<u16>,
    flag: int,
    high: int,
    plain: Seq<u8>,
    at: int,
)
    ensures
        compact_units(compact_form(units), flag, 0, high, plain, at) == Some(units),
    decreases units.len(),
{
    let s = compact_form(units);
    if units.len() == 0 {
        assert(units =~= Seq::<u16>::empty());
    } else if units.len() <= 4 {
        lemma_shift(units);
        let tail = Seq::<u8>::empty();
        let rest = Seq::<u16>::empty();
        assert forall|f: int, a: int| compact_units(tail, f, 0, high, plain, a) == Some(rest) by {}
        lemma_group(units, flag_of(units), 4, high, plain, at, tail, rest);
        assert(units_data(units) + tail =~= s.skip(1));
        assert(units + rest =~= units);
        lemma_first_mode(s, flag, high, plain, at);
    } else {
        let g = units.take(4);
        let rest = units.skip(4);
        lemma_shift(g);
        let tail = compact_form(rest);
        assert forall|f: int, a: int| compact_units(tail, f, 0, high, plain, a) == Some(rest) by {
            lemma_compact_roundtrip(rest, f, high, plain, a);
        }
        lemma_group(g, flag_of(g), 4, high, plain, at, tail, rest);
        assert(units_data(g) + tail =~= s.skip(1));
        assert(g + rest =~= units);
        lemma_first_mode(s, flag, high, plain, at);
    }
}

/// Reading a flag byte is starting its four modes.
proof fn lemma_first_mode(s: Seq<u8>, flag: int, high: int, plain: Seq<u8>, at: int)
    requires
        s.len() > 1,
    ensures
        compact_units(s, flag, 0, high, plain, at) == compact_units(
            s.skip(1),
            s[0] as int,
            4,
            high,
            plain,
            at,
        ),
{
}

proof fn lemma_ascii_byte(c: char)
    requires
        c != '\0',
        (c as u32) < 128,
    ensures
        c as u8 != 0,
{
    let v = c as u32;
    vstd::utf8::char_u32_cast(c, v);
    assert(v != 0) by {
        if v == 0 {
            assert(v as char == '\0');
        }
    }
    assert(v < 128 && v != 0 ==> v as u8 != 0) by (bit_vector);
    assert(c as u8 == v as u8);
}

proof fn lemma_zero_place(a: Seq<u8>, b: Seq<u8>)
    requires
        forall|i: int| 0 <= i < a.len() ==> a[i] != 0,
        b.len() > 0,
        b[0] == 0,
    ensures
        zero_place(a + b) == a.len(),
    decreases a.len(),
{
    if a.len() == 0 {
        assert(a + b =~= b);
    } else {
        assert((a + b).skip(1) =~= a.skip(1) + b);
        lemma_zero_place(a.skip(1), b);
    }
}

/// A plain UTF-8 name, not flagged as Unicode, passes through; only zero bytes
/// at its end are cut.
pub proof fn lemma_plain_name(name: Seq<char>, flags: u16)
    requires
        flags & FHD_UNICODE == 0,
        encode_utf8(name).len() > 0 ==> encode_utf8(name).last() != 0,
    ensures
        name_of(encode_utf8(name), flags) == name,
{
    let raw = encode_utf8(name);
    vstd::utf8::encode_utf8_valid_utf8(name);
    vstd::utf8::encode_utf8_decode_utf8(name);
    assert(trimmed_len(raw) == raw.len());
    assert(raw.take(raw.len() as int) =~= raw);
}

/// A name written is the name read, if no character of it is NUL.
pub proof fn lemma_name_roundtrip(name: Seq<char>)
    requires
        forall|i: int| 0 <= i < name.len() ==> name[i] != '\0',
    ensures
        name_of(name_bytes(name).0, name_bytes(name).1) == name,
{
    assert(0u16 & FHD_UNICODE == 0) by (bit_vector);
    assert(FHD_UNICODE & FHD_UNICODE != 0) by (bit_vector);
    if is_ascii_chars(name) {
        let raw = encode_utf8(name);
        is_ascii_chars_encode_utf8(name);
        vstd::utf8::encode_utf8_valid_utf8(name);
        vstd::utf8::encode_utf8_decode_utf8(name);
        if raw.len() > 0 {
            let last = name[name.len() - 1];
            assert(raw.last() == last as u8);
            assert(last != '\0');
            assert(last as u8 != 0);
        }
        assert(trimmed_len(raw) == raw.len());
        assert(raw.take(raw.len() as int) =~= raw);
    } else {
        let plain = plain_form(name);
        let units = utf16_units(name);
        let form = compact_form(units);
        let raw = plain + seq![0u8, 0xffu8] + form;
        assert forall|i: int| 0 <= i < plain.len() implies plain[i] != 0 by {
            if (name[i] as u32) < 128 {
                lemma_ascii_byte(name[i]);
            }
        }
        assert(raw =~= plain + (seq![0u8, 0xffu8] + form));
        lemma_zero_place(plain, seq![0u8, 0xffu8] + form);
        let z = plain.len() as int;
        assert(raw.skip(z + 2) =~= form);
        assert(raw.take(z) =~= plain);
        lemma_compact_roundtrip(units, 0, 0xff, plain, 0);
        lemma_utf16_roundtrip(name);
    }
}

fn push_run(
    units: &mut Vec<u16>,
    plain: &[u8],
    at: usize,
    count: usize,
    correction: u8,
    high: u8,
)
    requires
        at + count <= usize::MAX,
    ensures
        final(units)@ == old(units)@ + plain_run(
            plain@,
            at as int,
            count as int,
            correction as int,
            high as int,
        ),
{
    let ghost before = units@;
    let ghost run = plain_run(plain@, at as int, count as int, correction as int, high as int);
    let mut i: usize = 0;
    while i < count
        invariant
            i <= count,
            at + count <= usize::MAX,
            run == plain_run(plain@, at as int, count as int, correction as int, high as int),
            units@ == before + run.take(i as int),
        decreases count - i,
    {
        let base: u8 = if at + i < plain.len() {
            plain[at + i]
        } else {
            0x3f
        };
        let low: u16 = (base as u16 + correction as u16) % 256;
        units.push(high as u16 * 256 + low);
        proof {
            assert(run.take(i + 1) =~= run.take(i as int).push(run[i as int]));
            assert(units@ =~= before + run.take(i + 1));
        }
        i += 1;
    }
    assert(run.take(i as int) =~= run);
}

/// The units that a compact form spells, if it is whole.
#[verifier::rlimit(40)]
fn read_compact(encoded: &[u8], high: u8, plain: &[u8]) -> (r: Option<Vec<u16>>)
    requires
        encoded@.len() < 0x1_0000,
    ensures
        match (r, compact_units(encoded@, 0, 0, high as int, plain@, 0)) {
            (Some(a), Some(b)) => a@ == b,
            (None, None) => true,
            _ => false,
        },
{
    let total = encoded.len();
    let mut pos: usize = 0;
    let mut flag: u8 = 0;
    let mut modes: u8 = 0;
    let mut at: usize = 0;
    let mut units: Vec<u16> = Vec::new();
    let ghost goal = compact_units(encoded@, 0, 0, high as int, plain@, 0);
    proof {
        assert(encoded@.skip(0) =~= encoded@);
        if let Some(g) = goal {
            assert(units@ + g =~= g);
        }
    }
    while pos < total
        invariant
            total == encoded@.len(),
            total < 0x1_0000,
            pos <= total,
            modes <= 4,
            at <= 129 * pos,
            goal == compact_units(encoded@, 0, 0, high as int, plain@, 0),
            goal == led(
                units@,
                compact_units(
                    encoded@.skip(pos as int),
                    flag as int,
                    modes as int,
                    high as int,
                    plain@,
                    at as int,
                ),
            ),
        decreases total - pos,
    {
        let ghost before = units@;
        let ghost s = encoded@.skip(pos as int);
        let ghost at0 = at;
        let ghost flag0 = flag;
        let ghost modes0 = modes;
        if modes == 0 {
            flag = encoded[pos];
            pos += 1;
            modes = 4;
        }
        let mode = flag / 64;
        let next: u8 = ((flag as u16 * 4) % 256) as u8;
        modes -= 1;
        let ghost t = encoded@.skip(pos as int);
        proof {
            if modes0 == 0 {
                assert(s.skip(1) =~= t);
            } else {
                assert(s =~= t);
            }
        }
        if pos >= total {
            return None;
        }
        let low = encoded[pos];
        let ghost first: Seq<u16>;
        if mode == 0 {
            units.push(low as u16);
            pos += 1;
            at += 1;
            proof {
                first = seq![low as u16];
                assert(t.skip(1) =~= encoded@.skip(pos as int));
            }
        } else if mode == 1 {
            units.push(high as u16 * 256 + low as u16);
            pos += 1;
            at += 1;
            proof {
                first = seq![(high * 256 + low) as u16];
                assert(t.skip(1) =~= encoded@.skip(pos as int));
            }
        } else if mode == 2 {
            if total - pos < 2 {
                return None;
            }
            let up = encoded[pos + 1];
            units.push(up as u16 * 256 + low as u16);
            pos += 2;
            at += 1;
            proof {
                first = seq![(up * 256 + low) as u16];
                assert(t.skip(2) =~= encoded@.skip(pos as int));
            }
        } else if low >= 128 {
            if total - pos < 2 {
                return None;
            }
            let correction = encoded[pos + 1];
            let count = (low - 128) as usize + 2;
            push_run(&mut units, plain, at, count, correction, high);
            proof {
                first = plain_run(plain@, at as int, count as int, correction as int, high as int);
            }
            pos += 2;
            at += count;
            proof {
                assert(t.skip(2) =~= encoded@.skip(pos as int));
            }
        } else {
            let count = low as usize + 2;
            push_run(&mut units, plain, at, count, 0, 0);
            proof {
                first = plain_run(plain@, at as int, count as int, 0, 0);
            }
            pos += 1;
            at += count;
            proof {
                assert(t.skip(1) =~= encoded@.skip(pos as int));
            }
        }
        flag = next;
        proof {
            assert(units@ =~= before + first);
            let rest = compact_units(
                encoded@.skip(pos as int),
                flag as int,
                modes as int,
                high as int,
                plain@,
                at as int,
            );
            assert(compact_units(s, flag0 as int, modes0 as int, high as int, plain@, at0 as int)
                == led(first, rest));
            if let Some(r) = rest {
                assert(before + (first + r) =~= units@ + r);
            }
        }
    }
    proof {
        assert(units@ + Seq::<u16>::empty() =~= units@);
    }
    Some(units)
}

/// Name bytes without trailing zero bytes: what a code page is asked about.
pub fn trimmed_name(raw: &[u8]) -> (r: &[u8])
    ensures
        r@ == raw@.take(trimmed_len(raw@)),
{
    let mut end = raw.len();
    assert(raw@.take(end as int) =~= raw@);
    while end > 0 && raw[end - 1] == 0
        invariant
            end <= raw@.len(),
            trimmed_len(raw@) == trimmed_len(raw@.take(end as int)),
        decreases end,
    {
        assert(raw@.take(end as int).drop_last() =~= raw@.take(end - 1));
        end -= 1;
    }
    let bytes = slice_subrange(raw, 0, end);
    assert(bytes@ =~= raw@.take(end as int));
    bytes
}

/// The name that a header's name bytes spell.
pub fn decode_file_name(raw: &[u8], flags: u16) -> (r: String)
    requires
        raw@.len() < 0x1_0000,
    ensures
        r@ == name_of(raw@, flags),
{
    let system = decode_system_ansi(trimmed_name(raw));
    decode_file_name_from(raw, flags, system)
}

/// The name that a header's name bytes spell, given what the system's code
/// page makes of them.
pub fn decode_file_name_from(raw: &[u8], flags: u16, system: Option<String>) -> (r: String)
    requires
        raw@.len() < 0x1_0000,
    ensures
        r@ == name_read(
            raw@,
            flags,
            match system {
                Some(s) => Some(s@),
                None => None,
            },
        ),
{
    let total = raw.len();
    if flags & FHD_UNICODE == 0 {
        return legacy_text_from(trimmed_name(raw), system);
    }
    let mut z: usize = 0;
    assert(raw@.skip(0) =~= raw@);
    while z < total && raw[z] != 0
        invariant
            z <= total,
            total == raw@.len(),
            zero_place(raw@) == z + zero_place(raw@.skip(z as int)),
        decreases total - z,
    {
        assert(raw@.skip(z as int).skip(1) =~= raw@.skip(z + 1));
        z += 1;
    }
    if z >= total {
        return lossy_text(raw);
    }
    let plain = slice_subrange(raw, 0, z);
    assert(plain@ =~= raw@.take(z as int));
    if z + 1 >= total {
        return lossy_text(plain);
    }
    let encoded = slice_subrange(raw, z + 2, total);
    assert(encoded@ =~= raw@.skip(z + 2));
    match read_compact(encoded, raw[z + 1], plain) {
        Some(units) => decode_utf16(units.as_slice()),
        None => lossy_text(raw),
    }
}

/// The flag byte of up to four units, the first in the highest bits.
fn encode_flag_byte(units: &[u16], from: usize, to: usize) -> (r: u8)
    requires
        from < to <= units@.len(),
        to - from <= 4,
    ensures
        r == flag_of(units@.subrange(from as int, to as int)),
{
    let ghost g = units@.subrange(from as int, to as int);
    let m0: u8 = if units[from] < 256 {
        0
    } else {
        2
    };
    let m1: u8 = if to - from > 1 && units[from + 1] >= 256 {
        2
    } else {
        0
    };
    let m2: u8 = if to - from > 2 && units[from + 2] >= 256 {
        2
    } else {
        0
    };
    let m3: u8 = if to - from > 3 && units[from + 3] >= 256 {
        2
    } else {
        0
    };
    m0 * 64 + m1 * 16 + m2 * 4 + m3
}

fn push_units(out: &mut Vec<u8>, units: &[u16], from: usize, to: usize)
    requires
        from <= to <= units@.len(),
    ensures
        final(out)@ == old(out)@ + units_data(units@.subrange(from as int, to as int)),
{
    let ghost before = out@;
    let ghost g = units@.subrange(from as int, to as int);
    let mut i = from;
    proof {
        assert(g.skip(0) =~= g);
        assert(out@ + units_data(g) =~= before + units_data(g));
    }
    while i < to
        invariant
            from <= i <= to <= units@.len(),
            g == units@.subrange(from as int, to as int),
            out@ + units_data(g.skip(i - from)) == before + units_data(g),
        decreases to - i,
    {
        let u = units[i];
        let ghost now = out@;
        if u < 256 {
            out.push(u as u8);
        } else {
            out.push((u % 256) as u8);
            out.push((u / 256) as u8);
        }
        proof {
            let k = i - from;
            assert(g.skip(k)[0] == u);
            assert(g.skip(k).skip(1) =~= g.skip(k + 1));
            assert(out@ =~= now + unit_data(u));
            assert(out@ + units_data(g.skip(k + 1)) =~= now + units_data(g.skip(k)));
        }
        i += 1;
    }
    assert(out@ + units_data(g.skip(to - from)) =~= out@);
}

/// The bytes of a name in a file header, and the flag that goes with them.
pub fn encode_file_name(name: &str) -> (r: (Vec<u8>, u16))
    ensures
        r.0@ == name_bytes(name@).0,
        r.1 == name_bytes(name@).1,
{
    if name.is_ascii() {
        let bytes = vstd::slice::slice_to_vec(name.as_bytes());
        return (bytes, 0);
    }
    let chars = chars_of(name);
    let mut out: Vec<u8> = Vec::new();
    let mut i: usize = 0;
    while i < chars.len()
        invariant
            i <= chars@.len(),
            chars@ == name@,
            out@ == plain_form(name@).take(i as int),
        decreases chars@.len() - i,
    {
        let c = chars[i];
        if (c as u32) < 128 {
            out.push(c as u8);
        } else {
            out.push(0x3f);
        }
        assert(out@ =~= plain_form(name@).take(i + 1));
        i += 1;
    }
    out.push(0);
    out.push(0xff);
    let units = encode_utf16(chars.as_slice());
    let ghost head = out@;
    proof {
        assert(plain_form(name@).take(i as int) =~= plain_form(name@));
        assert(head =~= plain_form(name@) + seq![0u8, 0xffu8]);
        assert(units@.skip(0) =~= units@);
    }
    let total = units.len();
    let mut at: usize = 0;
    while at < total
        invariant
            at <= total,
            total == units@.len(),
            out@ + compact_form(units@.skip(at as int)) == head + compact_form(units@),
        decreases total - at,
    {
        let to = if total - at <= 4 {
            total
        } else {
            at + 4
        };
        let ghost now = out@;
        let ghost rest = units@.skip(at as int);
        let ghost g = units@.subrange(at as int, to as int);
        out.push(encode_flag_byte(units.as_slice(), at, to));
        push_units(&mut out, units.as_slice(), at, to);
        proof {
            lemma_shift(g);
            if rest.len() <= 4 {
                assert(g =~= rest);
                assert(units@.skip(to as int) =~= Seq::<u16>::empty());
            } else {
                assert(g =~= rest.take(4));
                assert(units@.skip(to as int) =~= rest.skip(4));
            }
            assert(out@ + compact_form(units@.skip(to as int)) =~= now + compact_form(rest));
        }
        at = to;
    }
    assert(out@ + compact_form(units@.skip(at as int)) =~= out@);
    assert(out@ =~= name_bytes(name@).0);
    (out, FHD_UNICODE)
}

} // verus!
