//! Text encodings of the legacy containers: UTF-8, UTF-16 and what stands in
//! for bytes that are neither.

use vstd::prelude::*;
use vstd::string::*;
use vstd::utf8::{decode_utf8, is_scalar, valid_utf8};

verus! {

/// The text that stands in for bytes that need not be UTF-8.
pub uninterp spec fn lossy_utf8_of(bytes: Seq<u8>) -> Seq<char>;

/// `std::str::from_utf8`: text for the bytes that are valid UTF-8, and for no
/// others.
#[verifier::external_body]
fn utf8_text(bytes: &[u8]) -> (r: Option<String>)
    ensures
        match r {
            Some(s) => valid_utf8(bytes@) && s@ == decode_utf8(bytes@),
            None => !valid_utf8(bytes@),
        },
{
    std::str::from_utf8(bytes).ok().map(String::from)
}

/// `String::from_utf8_lossy`: the result is a function of the bytes, and
/// their text where they are valid UTF-8. What stands in for other bytes is
/// not stated.
#[verifier::external_body]
fn utf8_lossy(bytes: &[u8]) -> (r: String)
    ensures
        r@ == lossy_utf8_of(bytes@),
        valid_utf8(bytes@) ==> r@ == decode_utf8(bytes@),
{
    String::from_utf8_lossy(bytes).into_owned()
}

/// `char::from_u32`: the character of a scalar value, and nothing for other
/// numbers.
pub assume_specification[ char::from_u32 ](i: u32) -> (r: Option<char>)
    ensures
        match r {
            Some(c) => is_scalar(i) && c as u32 == i,
            None => !is_scalar(i),
        },
;

/// `String::push`: the character is appended.
pub assume_specification[ String::push ](s: &mut String, ch: char)
    ensures
        final(s)@ == old(s)@.push(ch),
;

/// The text of legacy bytes: UTF-8 if they are, else what the system's code
/// page makes of them, else a stand-in.
pub open spec fn legacy_text(bytes: Seq<u8>, system: Option<Seq<char>>) -> Seq<char> {
    if valid_utf8(bytes) {
        decode_utf8(bytes)
    } else {
        match system {
            Some(s) => s,
            None => lossy_utf8_of(bytes),
        }
    }
}

/// The text of legacy bytes, given what the system's code page makes of them.
pub fn legacy_text_from(bytes: &[u8], system: Option<String>) -> (r: String)
    ensures
        r@ == legacy_text(
            bytes@,
            match system {
                Some(s) => Some(s@),
                None => None,
            },
        ),
{
    match utf8_text(bytes) {
        Some(s) => s,
        None => match system {
            Some(s) => s,
            None => utf8_lossy(bytes),
        },
    }
}

/// The text of bytes that are meant to be UTF-8.
pub fn lossy_text(bytes: &[u8]) -> (r: String)
    ensures
        r@ == lossy_utf8_of(bytes@),
        valid_utf8(bytes@) ==> r@ == decode_utf8(bytes@),
{
    utf8_lossy(bytes)
}

/// Whether bytes are valid UTF-8.
pub fn is_utf8(bytes: &[u8]) -> (r: bool)
    ensures
        r == valid_utf8(bytes@),
{
    match utf8_text(bytes) {
        Some(_) => true,
        None => false,
    }
}

/// What the system's code page makes of legacy bytes: nothing, since the
/// systems this is for have none. Where there is one, its text goes into a
/// name by `legacy_text_from`.
pub fn decode_system_ansi(bytes: &[u8]) -> (r: Option<String>)
    ensures
        r is None,
{
    None
}

/// The UTF-16 units of one character.
pub open spec fn utf16_char(c: char) -> Seq<u16> {
    let v = c as u32 as int;
    if v < 0x1_0000 {
        seq![v as u16]
    } else {
        seq![
            (0xd800 + (v - 0x1_0000) / 0x400) as u16,
            (0xdc00 + (v - 0x1_0000) % 0x400) as u16,
        ]
    }
}

/// The UTF-16 units of a text.
pub open spec fn utf16_units(text: Seq<char>) -> Seq<u16>
    decreases text.len(),
{
    if text.len() == 0 {
        Seq::empty()
    } else {
        utf16_char(text[0]) + utf16_units(text.drop_first())
    }
}

/// A first unit of two.
pub open spec fn is_high(u: u16) -> bool {
    0xd800 <= u < 0xdc00
}

/// A second unit of two.
pub open spec fn is_low(u: u16) -> bool {
    0xdc00 <= u < 0xe000
}

/// The character of two units.
pub open spec fn paired(high: u16, low: u16) -> u32 {
    (0x1_0000 + (high - 0xd800) * 0x400 + (low - 0xdc00)) as u32
}

/// The text that UTF-16 units spell, with U+FFFD for each unit that belongs
/// to no pair.
pub open spec fn utf16_text(units: Seq<u16>) -> Seq<char>
    decreases units.len(),
{
    if units.len() == 0 {
        Seq::empty()
    } else if !is_high(units[0]) && !is_low(units[0]) {
        seq![units[0] as char] + utf16_text(units.skip(1))
    } else if is_high(units[0]) && units.len() > 1 && is_low(units[1]) {
        seq![paired(units[0], units[1]) as char] + utf16_text(units.skip(2))
    } else {
        seq!['\u{FFFD}'] + utf16_text(units.skip(1))
    }
}

proof fn lemma_scalar(c: char)
    ensures
        c as u32 <= 0x10_ffff,
        !(0xd800 <= c as u32 && (c as u32) < 0xe000),
        (c as u32) as char == c,
        is_scalar(c as u32),
{
    vstd::utf8::char_is_scalar(c);
    vstd::utf8::char_u32_cast(c, c as u32);
}

/// The units of a text spell the text.
pub proof fn lemma_utf16_roundtrip(text: Seq<char>)
    ensures
        utf16_text(utf16_units(text)) == text,
    decreases text.len(),
{
    if text.len() > 0 {
        let c = text[0];
        let rest = text.drop_first();
        let units = utf16_units(text);
        lemma_scalar(c);
        lemma_utf16_roundtrip(rest);
        let v = c as u32 as int;
        if v < 0x1_0000 {
            assert(units[0] == v);
            assert(units.skip(1) =~= utf16_units(rest));
            assert(units[0] as char == c);
        } else {
            let d = v - 0x1_0000;
            assert(d / 0x400 < 0x400);
            assert(units[0] == 0xd800 + d / 0x400);
            assert(units[1] == 0xdc00 + d % 0x400);
            assert(paired(units[0], units[1]) == v);
            assert(units.skip(2) =~= utf16_units(rest));
        }
        assert(utf16_text(units) =~= text);
    } else {
        assert(utf16_text(utf16_units(text)) =~= text);
    }
}

/// The units of a text after one more character.
pub proof fn lemma_units_push(text: Seq<char>, c: char)
    ensures
        utf16_units(text.push(c)) == utf16_units(text) + utf16_char(c),
    decreases text.len(),
{
    if text.len() == 0 {
        assert(text.push(c).drop_first() =~= Seq::<char>::empty());
        assert(utf16_units(Seq::<char>::empty()) =~= Seq::<u16>::empty());
        assert(utf16_units(text.push(c)) =~= utf16_units(text) + utf16_char(c));
    } else {
        assert(text.push(c).drop_first() =~= text.drop_first().push(c));
        lemma_units_push(text.drop_first(), c);
        assert(utf16_units(text.push(c)) =~= utf16_units(text) + utf16_char(c));
    }
}

/// The characters of a text.
pub fn chars_of(text: &str) -> (r: Vec<char>)
    ensures
        r@ == text@,
{
    let mut out: Vec<char> = Vec::new();
    let n = text.unicode_len();
    let mut i: usize = 0;
    while i < n
        invariant
            i <= n,
            n == text@.len(),
            out@ == text@.take(i as int),
        decreases n - i,
    {
        out.push(text.get_char(i));
        i += 1;
        assert(out@ =~= text@.take(i as int));
    }
    assert(text@.take(n as int) =~= text@);
    out
}

/// The UTF-16 units of a text.
pub fn encode_utf16(text: &[char]) -> (r: Vec<u16>)
    ensures
        r@ == utf16_units(text@),
{
    let mut out: Vec<u16> = Vec::new();
    let mut i: usize = 0;
    proof {
        assert(utf16_units(text@.take(0)) =~= out@);
    }
    while i < text.len()
        invariant
            i <= text@.len(),
            out@ == utf16_units(text@.take(i as int)),
        decreases text@.len() - i,
    {
        let c = text[i];
        let v = c as u32;
        let ghost before = out@;
        proof {
            lemma_scalar(c);
            lemma_units_push(text@.take(i as int), c);
            assert(text@.take(i + 1) =~= text@.take(i as int).push(c));
        }
        if v < 0x1_0000 {
            out.push(v as u16);
        } else {
            out.push((0xd800 + (v - 0x1_0000) / 0x400) as u16);
            out.push((0xdc00 + (v - 0x1_0000) % 0x400) as u16);
        }
        assert(out@ =~= before + utf16_char(c));
        i += 1;
    }
    assert(text@.take(i as int) =~= text@);
    out
}

/// The text that UTF-16 units spell.
pub fn decode_utf16(units: &[u16]) -> (r: String)
    ensures
        r@ == utf16_text(units@),
{
    let mut out = String::new();
    let n = units.len();
    let mut i: usize = 0;
    proof {
        assert(units@.skip(0) =~= units@);
        assert(out@ + utf16_text(units@.skip(0)) =~= utf16_text(units@));
    }
    while i < n
        invariant
            i <= n,
            n == units@.len(),
            out@ + utf16_text(units@.skip(i as int)) == utf16_text(units@),
        decreases n - i,
    {
        let u = units[i];
        let ghost rest = units@.skip(i as int);
        let ghost before = out@;
        proof {
            assert(rest.skip(1) =~= units@.skip(i + 1));
            if i + 1 < n {
                assert(rest.skip(2) =~= units@.skip(i + 2));
            }
        }
        let mut c: char = '\u{FFFD}';
        let mut used: usize = 1;
        if u < 0xd800 || u >= 0xe000 {
            if let Some(x) = char::from_u32(u as u32) {
                c = x;
            }
            proof {
                assert(is_scalar(u as u32));
                lemma_scalar(c);
            }
        } else if u < 0xdc00 && n - i > 1 && units[i + 1] >= 0xdc00 && units[i + 1] < 0xe000 {
            let low = units[i + 1];
            let v: u32 = 0x1_0000 + (u as u32 - 0xd800) * 0x400 + (low as u32 - 0xdc00);
            if let Some(x) = char::from_u32(v) {
                c = x;
            }
            used = 2;
            proof {
                assert(is_scalar(v));
                lemma_scalar(c);
            }
        }
        out.push(c);
        proof {
            assert(utf16_text(rest) == seq![c] + utf16_text(units@.skip(i + used)));
            assert(out@ + utf16_text(units@.skip(i + used)) =~= before + utf16_text(rest));
        }
        i += used;
    }
    assert(out@ + utf16_text(units@.skip(i as int)) =~= out@);
    out
}

/// What a code page's answer, in UTF-16, is worth: the text, or nothing where
/// some of it has no character, since stand-ins must not get into names.
pub fn code_page_text(units: &[u16]) -> (r: Option<String>)
    ensures
        r is None <==> utf16_text(units@).contains('\u{FFFD}'),
        r is Some ==> r->Some_0@ == utf16_text(units@),
{
    let text = decode_utf16(units);
    let chars = chars_of(text.as_str());
    let n: usize = chars.len();
    let mut i: usize = 0;
    while i < n
        invariant
            i <= n,
            n == chars@.len(),
            chars@ == utf16_text(units@),
            forall|k: int| 0 <= k < i ==> chars@[k] != '\u{FFFD}',
        decreases n - i,
    {
        if chars[i] == '\u{FFFD}' {
            assert(utf16_text(units@)[i as int] == '\u{FFFD}');
            return None;
        }
        i = i + 1;
    }
    Some(text)
}

} // verus!
