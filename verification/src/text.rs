//! Text renderings of coordinates and handles, written out digit by digit.
use vstd::prelude::*;
use vstd::string::StringExecFns;
use crate::coord::Coord;

verus! {

/// The character of a digit below 16: `0` to `9`, then `a` to `f`.
pub open spec fn hex_char(d: int) -> char {
    if d == 0 {
        '0'
    } else if d == 1 {
        '1'
    } else if d == 2 {
        '2'
    } else if d == 3 {
        '3'
    } else if d == 4 {
        '4'
    } else if d == 5 {
        '5'
    } else if d == 6 {
        '6'
    } else if d == 7 {
        '7'
    } else if d == 8 {
        '8'
    } else if d == 9 {
        '9'
    } else if d == 10 {
        'a'
    } else if d == 11 {
        'b'
    } else if d == 12 {
        'c'
    } else if d == 13 {
        'd'
    } else if d == 14 {
        'e'
    } else {
        'f'
    }
}

/// The decimal digits of `n`, most significant first, without leading zeros (`0` for zero).
pub open spec fn decimal_digits(n: nat) -> Seq<char>
    decreases n,
{
    if n < 10 {
        seq![hex_char(n as int)]
    } else {
        decimal_digits(n / 10).push(hex_char((n % 10) as int))
    }
}

/// `v` in decimal, with a leading `-` when it is negative.
pub open spec fn decimal(v: int) -> Seq<char> {
    if v < 0 {
        seq!['-'] + decimal_digits((-v) as nat)
    } else {
        decimal_digits(v as nat)
    }
}

/// The last `n` hexadecimal digits of `v` in lower case, most significant first.
pub open spec fn hex_fixed(v: nat, n: nat) -> Seq<char>
    decreases n,
{
    if n == 0 {
        Seq::empty()
    } else {
        hex_fixed(v / 16, (n - 1) as nat).push(hex_char((v % 16) as int))
    }
}

/// A handle in the usual form of a UUID: its 32 hexadecimal digits in lower case, in groups of
/// 8, 4, 4, 4 and 12 joined by hyphens.
#[verifier::opaque]
pub open spec fn handle_text(h: u128) -> Seq<char> {
    hex_fixed(h as nat / 0x1_0000_0000_0000_0000_0000_0000, 8) + seq!['-'] + hex_fixed(
        h as nat / 0x1_0000_0000_0000_0000_0000,
        4,
    ) + seq!['-'] + hex_fixed(h as nat / 0x1_0000_0000_0000_0000, 4) + seq!['-'] + hex_fixed(
        h as nat / 0x1_0000_0000_0000,
        4,
    ) + seq!['-'] + hex_fixed(h as nat, 12)
}

/// The one-character text of a digit below 16.
fn digit_str(d: u8) -> (s: &'static str)
    requires
        d < 16,
    ensures
        s@ == seq![hex_char(d as int)],
{
    proof {
        reveal_strlit("0");
        reveal_strlit("1");
        reveal_strlit("2");
        reveal_strlit("3");
        reveal_strlit("4");
        reveal_strlit("5");
        reveal_strlit("6");
        reveal_strlit("7");
        reveal_strlit("8");
        reveal_strlit("9");
        reveal_strlit("a");
        reveal_strlit("b");
        reveal_strlit("c");
        reveal_strlit("d");
        reveal_strlit("e");
        reveal_strlit("f");
    }
    if d == 0 {
        "0"
    } else if d == 1 {
        "1"
    } else if d == 2 {
        "2"
    } else if d == 3 {
        "3"
    } else if d == 4 {
        "4"
    } else if d == 5 {
        "5"
    } else if d == 6 {
        "6"
    } else if d == 7 {
        "7"
    } else if d == 8 {
        "8"
    } else if d == 9 {
        "9"
    } else if d == 10 {
        "a"
    } else if d == 11 {
        "b"
    } else if d == 12 {
        "c"
    } else if d == 13 {
        "d"
    } else if d == 14 {
        "e"
    } else {
        "f"
    }
}

/// Appends the decimal digits of `n`.
fn push_decimal_digits(s: &mut String, n: u128)
    ensures
        final(s)@ == old(s)@ + decimal_digits(n as nat),
    decreases n,
{
    if n < 10 {
        s.append(digit_str(n as u8));
    } else {
        let ghost start = s@;
        push_decimal_digits(s, n / 10);
        s.append(digit_str((n % 10) as u8));
        proof {
            assert(s@ =~= start + decimal_digits(n as nat));
        }
    }
}

/// Appends `v` in decimal.
pub(crate) fn push_coord<U: Coord>(s: &mut String, v: U)
    ensures
        final(s)@ == old(s)@ + decimal(v.val()),
{
    let ghost start = s@;
    let (negative, magnitude) = v.sign_magnitude();
    if negative {
        proof {
            reveal_strlit("-");
        }
        s.append("-");
    }
    push_decimal_digits(s, magnitude);
    proof {
        assert(s@ =~= start + decimal(v.val()));
    }
}

/// Appends the last `n` hexadecimal digits of `v`.
fn push_hex(s: &mut String, v: u128, n: usize)
    ensures
        final(s)@ == old(s)@ + hex_fixed(v as nat, n as nat),
    decreases n,
{
    if n > 0 {
        let ghost start = s@;
        push_hex(s, v / 16, n - 1);
        s.append(digit_str((v % 16) as u8));
        proof {
            assert(s@ =~= start + hex_fixed(v as nat, n as nat));
        }
    } else {
        proof {
            assert(s@ =~= old(s)@ + hex_fixed(v as nat, n as nat));
        }
    }
}

/// Appends a handle in the usual form of a UUID.
pub(crate) fn push_handle(s: &mut String, h: u128)
    ensures
        final(s)@ == old(s)@ + handle_text(h),
{
    let ghost start = s@;
    proof {
        reveal_strlit("-");
    }
    push_hex(s, h / 0x1_0000_0000_0000_0000_0000_0000, 8);
    s.append("-");
    push_hex(s, h / 0x1_0000_0000_0000_0000_0000, 4);
    s.append("-");
    push_hex(s, h / 0x1_0000_0000_0000_0000, 4);
    s.append("-");
    push_hex(s, h / 0x1_0000_0000_0000, 4);
    s.append("-");
    push_hex(s, h, 12);
    proof {
        reveal(handle_text);
        assert(s@ =~= start + handle_text(h));
    }
}

} // verus!
