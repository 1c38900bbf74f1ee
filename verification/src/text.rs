//! Numbers as text.

use vstd::prelude::*;
use vstd::string::*;

verus! {

/// The character of a digit below sixteen, in lower case.
pub open spec fn digit_char(d: int) -> char {
    if d == 0 {
        '0'
    } else if d == 1 {
        '1'
    } else if d == 2 {
        '2'
    } else if d == 3 {
        '3'
    } else if d == 4 {
        '4'
    } else if d == 5 {
        '5'
    } else if d == 6 {
        '6'
    } else if d == 7 {
        '7'
    } else if d == 8 {
        '8'
    } else if d == 9 {
        '9'
    } else if d == 10 {
        'a'
    } else if d == 11 {
        'b'
    } else if d == 12 {
        'c'
    } else if d == 13 {
        'd'
    } else if d == 14 {
        'e'
    } else {
        'f'
    }
}

/// `n` written in the given base, most significant digit first.
pub open spec fn in_base(n: nat, base: nat) -> Seq<char>
    decreases n,
{
    if base < 2 || n < base {
        seq![digit_char(n as int)]
    } else {
        proof {
            assert(n / base < n) by (nonlinear_arith)
                requires
                    n >= base,
                    base >= 2,
            ;
        }
        in_base(n / base, base).push(digit_char((n % base) as int))
    }
}

/// `n` in decimal.
pub open spec fn decimal(n: nat) -> Seq<char> {
    in_base(n, 10)
}

/// `n` in hexadecimal, after `0x`.
pub open spec fn prefixed_hex(n: nat) -> Seq<char> {
    "0x"@ + in_base(n, 16)
}

/// `n` in hexadecimal, as exactly `width` digits.
pub open spec fn padded_hex(n: nat, width: nat) -> Seq<char>
    decreases width,
{
    if width == 0 {
        Seq::empty()
    } else {
        padded_hex(n / 16, (width - 1) as nat).push(digit_char((n % 16) as int))
    }
}

/// The character of a digit below sixteen, in upper case.
pub open spec fn upper_digit_char(d: int) -> char {
    if d == 10 {
        'A'
    } else if d == 11 {
        'B'
    } else if d == 12 {
        'C'
    } else if d == 13 {
        'D'
    } else if d == 14 {
        'E'
    } else if d == 15 {
        'F'
    } else {
        digit_char(d)
    }
}

/// `n` in upper-case hexadecimal, as exactly `width` digits.
pub open spec fn padded_upper_hex(n: nat, width: nat) -> Seq<char>
    decreases width,
{
    if width == 0 {
        Seq::empty()
    } else {
        padded_upper_hex(n / 16, (width - 1) as nat).push(upper_digit_char((n % 16) as int))
    }
}

fn upper_digit_str(d: u64) -> (s: &'static str)
    requires
        d < 16,
    ensures
        s@ == seq![upper_digit_char(d as int)],
{
    proof {
        reveal_strlit("A");
        reveal_strlit("B");
        reveal_strlit("C");
        reveal_strlit("D");
        reveal_strlit("E");
        reveal_strlit("F");
    }
    let s: &'static str = match d {
        10 => "A",
        11 => "B",
        12 => "C",
        13 => "D",
        14 => "E",
        15 => "F",
        _ => digit_str(d),
    };
    assert(s@ =~= seq![upper_digit_char(d as int)]);
    s
}

/// Append `n` in upper-case hexadecimal, as exactly `width` digits.
pub fn push_padded_upper_hex(s: &mut String, n: u64, width: u8)
    ensures
        final(s)@ == old(s)@ + padded_upper_hex(n as nat, width as nat),
    decreases width,
{
    let ghost before = s@;
    if width > 0 {
        push_padded_upper_hex(s, n / 16, width - 1);
        s.append(upper_digit_str(n % 16));
    }
    assert(s@ =~= before + padded_upper_hex(n as nat, width as nat));
}

fn digit_str(d: u64) -> (s: &'static str)
    requires
        d < 16,
    ensures
        s@ == seq![digit_char(d as int)],
{
    proof {
        reveal_strlit("0");
        reveal_strlit("1");
        reveal_strlit("2");
        reveal_strlit("3");
        reveal_strlit("4");
        reveal_strlit("5");
        reveal_strlit("6");
        reveal_strlit("7");
        reveal_strlit("8");
        reveal_strlit("9");
        reveal_strlit("a");
        reveal_strlit("b");
        reveal_strlit("c");
        reveal_strlit("d");
        reveal_strlit("e");
        reveal_strlit("f");
    }
    let s: &'static str = match d {
        0 => "0",
        1 => "1",
        2 => "2",
        3 => "3",
        4 => "4",
        5 => "5",
        6 => "6",
        7 => "7",
        8 => "8",
        9 => "9",
        10 => "a",
        11 => "b",
        12 => "c",
        13 => "d",
        14 => "e",
        _ => "f",
    };
    assert(s@ =~= seq![digit_char(d as int)]);
    s
}

fn push_in_base(s: &mut String, n: u64, base: u64)
    requires
        2 <= base <= 16,
    ensures
        final(s)@ == old(s)@ + in_base(n as nat, base as nat),
    decreases n,
{
    let ghost before = s@;
    if n >= base {
        proof {
            assert(n / base < n) by (nonlinear_arith)
                requires
                    n >= base,
                    base >= 2,
            ;
        }
        push_in_base(s, n / base, base);
    }
    proof {
        assert(n % base < base) by (nonlinear_arith)
            requires
                base >= 2,
        ;
        if n < base {
            vstd::arithmetic::div_mod::lemma_small_mod(n as nat, base as nat);
        }
    }
    s.append(digit_str(n % base));
    assert(s@ =~= before + in_base(n as nat, base as nat));
}

/// Append `n` in decimal.
pub fn push_decimal(s: &mut String, n: u64)
    ensures
        final(s)@ == old(s)@ + decimal(n as nat),
{
    push_in_base(s, n, 10);
}

/// Append `n` in hexadecimal, after `0x`.
pub fn push_prefixed_hex(s: &mut String, n: u64)
    ensures
        final(s)@ == old(s)@ + prefixed_hex(n as nat),
{
    let ghost before = s@;
    s.append("0x");
    push_in_base(s, n, 16);
    assert(s@ =~= before + prefixed_hex(n as nat));
}

/// Append `n` in hexadecimal, as exactly `width` digits.
pub fn push_padded_hex(s: &mut String, n: u64, width: u8)
    ensures
        final(s)@ == old(s)@ + padded_hex(n as nat, width as nat),
    decreases width,
{
    let ghost before = s@;
    if width > 0 {
        push_padded_hex(s, n / 16, width - 1);
        s.append(digit_str(n % 16));
    }
    assert(s@ =~= before + padded_hex(n as nat, width as nat));
}

/// Two texts, one after the other.
pub fn joined(a: &str, b: &str) -> (s: String)
    ensures
        s@ == a@ + b@,
{
    let mut s = String::new();
    s.append(a);
    s.append(b);
    assert(s@ =~= a@ + b@);
    s
}

/// A decimal number between two texts.
pub fn with_number(a: &str, n: u64, b: &str) -> (s: String)
    ensures
        s@ == a@ + decimal(n as nat) + b@,
{
    let mut s = String::new();
    s.append(a);
    push_decimal(&mut s, n);
    s.append(b);
    assert(s@ =~= a@ + decimal(n as nat) + b@);
    s
}

/// A hexadecimal number between two texts.
pub fn with_hex(a: &str, n: u64, b: &str) -> (s: String)
    ensures
        s@ == a@ + prefixed_hex(n as nat) + b@,
{
    let mut s = String::new();
    s.append(a);
    push_prefixed_hex(&mut s, n);
    s.append(b);
    assert(s@ =~= a@ + prefixed_hex(n as nat) + b@);
    s
}

} // verus!
