//! Numbers as text.
//!
//! The messages that errors carry name the numbers that were found, in decimal
//! or in zero-padded hexadecimal.

use vstd::prelude::*;

verus! {

/// The character for one hexadecimal digit.
pub open spec fn digit_char(d: nat) -> char {
    if d == 0 {
        '0'
    } else if d == 1 {
        '1'
    } else if d == 2 {
        '2'
    } else if d == 3 {
        '3'
    } else if d == 4 {
        '4'
    } else if d == 5 {
        '5'
    } else if d == 6 {
        '6'
    } else if d == 7 {
        '7'
    } else if d == 8 {
        '8'
    } else if d == 9 {
        '9'
    } else if d == 10 {
        'a'
    } else if d == 11 {
        'b'
    } else if d == 12 {
        'c'
    } else if d == 13 {
        'd'
    } else if d == 14 {
        'e'
    } else {
        'f'
    }
}

/// The decimal digits of `n`, without leading zeros.
pub open spec fn decimal_text(n: nat) -> Seq<char>
    decreases n,
{
    if n < 10 {
        seq![digit_char(n)]
    } else {
        decimal_text(n / 10).push(digit_char(n % 10))
    }
}

/// The low `width` hexadecimal digits of `n`.
pub open spec fn hex_digits(n: nat, width: nat) -> Seq<char>
    decreases width,
{
    if width == 0 {
        Seq::empty()
    } else {
        hex_digits(n / 16, (width - 1) as nat).push(digit_char(n % 16))
    }
}

/// `0x` and the low `width` hexadecimal digits of `n`.
pub open spec fn hex_text(n: nat, width: nat) -> Seq<char> {
    "0x"@ + hex_digits(n, width)
}

/// The digit `d` as a string.
fn digit(d: u8) -> (r: &'static str)
    requires
        d < 16,
    ensures
        r@ == seq![digit_char(d as nat)],
{
    proof {
        reveal_strlit("0");
        reveal_strlit("1");
        reveal_strlit("2");
        reveal_strlit("3");
        reveal_strlit("4");
        reveal_strlit("5");
        reveal_strlit("6");
        reveal_strlit("7");
        reveal_strlit("8");
        reveal_strlit("9");
        reveal_strlit("a");
        reveal_strlit("b");
        reveal_strlit("c");
        reveal_strlit("d");
        reveal_strlit("e");
        reveal_strlit("f");
    }
    let r: &'static str = match d {
        0 => "0",
        1 => "1",
        2 => "2",
        3 => "3",
        4 => "4",
        5 => "5",
        6 => "6",
        7 => "7",
        8 => "8",
        9 => "9",
        10 => "a",
        11 => "b",
        12 => "c",
        13 => "d",
        14 => "e",
        _ => "f",
    };
    assert(r@ =~= seq![digit_char(d as nat)]);
    r
}

/// `n` in decimal.
pub fn decimal(n: u64) -> (r: String)
    ensures
        r@ == decimal_text(n as nat),
    decreases n,
{
    let mut out: String = if n < 10 {
        String::new()
    } else {
        decimal(n / 10)
    };
    out.append(digit((n % 10) as u8));
    assert(out@ =~= decimal_text(n as nat));
    out
}

/// The low `width` hexadecimal digits of `n`.
fn hex_tail(n: u64, width: u8) -> (r: String)
    ensures
        r@ == hex_digits(n as nat, width as nat),
    decreases width,
{
    if width == 0 {
        let out: String = String::new();
        assert(out@ =~= hex_digits(n as nat, 0));
        return out;
    }
    let mut out: String = hex_tail(n / 16, width - 1);
    out.append(digit((n % 16) as u8));
    assert(out@ =~= hex_digits(n as nat, width as nat));
    out
}

/// `0x` and the low `width` hexadecimal digits of `n`.
pub fn hex(n: u64, width: u8) -> (r: String)
    ensures
        r@ == hex_text(n as nat, width as nat),
{
    let mut out: String = String::new();
    out.append("0x");
    out.append(hex_tail(n, width).as_str());
    assert(out@ =~= hex_text(n as nat, width as nat));
    out
}

/// A fixed message followed by a number in decimal.
pub fn with_number(message: &str, n: u64) -> (r: String)
    ensures
        r@ == message@ + decimal_text(n as nat),
{
    let mut out: String = String::new();
    out.append(message);
    out.append(decimal(n).as_str());
    assert(out@ =~= message@ + decimal_text(n as nat));
    out
}

/// The number that a character of a number stands for.
pub open spec fn digit_value(c: char) -> int {
    if '0' <= c <= '9' {
        c as int - '0' as int
    } else {
        c as int - 'a' as int + 10
    }
}

/// The number that a text stands for, to a base.
pub open spec fn text_value(s: Seq<char>, base: int) -> int
    decreases s.len(),
{
    if s.len() == 0 {
        0
    } else {
        base * text_value(s.drop_last(), base) + digit_value(s.last())
    }
}

/// The decimal text of a number stands for the number. It has digits only, and
/// does not start with a zero unless that is all of it.
pub proof fn law_decimal_text(n: nat)
    ensures
        text_value(decimal_text(n), 10) == n,
        decimal_text(n).len() >= 1,
        forall|i: int| 0 <= i < decimal_text(n).len() ==> '0' <= #[trigger] decimal_text(n)[i] <= '9',
        n > 0 ==> decimal_text(n)[0] != '0',
        n == 0 ==> decimal_text(n).len() == 1,
    decreases n,
{
    let s = decimal_text(n);
    if n < 10 {
        assert(s.drop_last() =~= Seq::<char>::empty());
        assert(text_value(s.drop_last(), 10) == 0);
    } else {
        law_decimal_text(n / 10);
        assert(s.drop_last() =~= decimal_text(n / 10));
        assert(s[0] == decimal_text(n / 10)[0]);
    }
}

/// The hexadecimal text of a number stands for its low digits, and has as many
/// as were asked for.
pub proof fn law_hex_digits(n: nat, width: nat)
    ensures
        hex_digits(n, width).len() == width,
        text_value(hex_digits(n, width), 16) == n as int % vstd::arithmetic::power::pow(16, width),
        forall|i: int|
            0 <= i < width ==> {
                let c = #[trigger] hex_digits(n, width)[i];
                '0' <= c <= '9' || 'a' <= c <= 'f'
            },
    decreases width,
{
    let s = hex_digits(n, width);
    let p = vstd::arithmetic::power::pow(16, width);
    vstd::arithmetic::power::lemma_pow0(16);
    if width == 0 {
        assert(n as int % 1 == 0);
    } else {
        let w = (width - 1) as nat;
        let q = vstd::arithmetic::power::pow(16, w);
        law_hex_digits(n / 16, w);
        assert(s.drop_last() =~= hex_digits(n / 16, w));
        vstd::arithmetic::power::lemma_pow_positive(16, w);
        assert(p == 16 * q) by {
            reveal(vstd::arithmetic::power::pow);
        }
        vstd::arithmetic::div_mod::lemma_mod_breakdown(n as int, 16, q);
        assert(text_value(s, 16) == 16 * ((n as int / 16) % q) + n as int % 16);
    }
}

} // verus!
