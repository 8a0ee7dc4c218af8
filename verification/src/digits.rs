//! Decimal rendering of numbers: the digit sequence of a number, zero-padding
//! to a minimum width, and the padded numeric prefix that associates an audio
//! file with its transcript.

use vstd::prelude::*;
use vstd::string::StringExecFns;

verus! {

/// The character for one decimal digit.
pub open spec fn digit_char(d: nat) -> char {
    if d == 0 {
        '0'
    } else if d == 1 {
        '1'
    } else if d == 2 {
        '2'
    } else if d == 3 {
        '3'
    } else if d == 4 {
        '4'
    } else if d == 5 {
        '5'
    } else if d == 6 {
        '6'
    } else if d == 7 {
        '7'
    } else if d == 8 {
        '8'
    } else {
        '9'
    }
}

/// The decimal digit sequence of `n`, most significant digit first, with no
/// leading zeros (`0` itself is the single digit `0`).
pub open spec fn dec_digits(n: nat) -> Seq<char>
    decreases n,
{
    if n < 10 {
        seq![digit_char(n)]
    } else {
        dec_digits(n / 10) + seq![digit_char(n % 10)]
    }
}

/// A run of `k` zero characters.
pub open spec fn zero_chars(k: nat) -> Seq<char> {
    Seq::new(k, |i: int| '0')
}

/// `n` rendered in decimal, left-padded with zeros to at least `w` characters.
/// Padding is a minimum width, not a truncation.
pub open spec fn padded_dec(n: nat, w: nat) -> Seq<char> {
    if dec_digits(n).len() >= w {
        dec_digits(n)
    } else {
        zero_chars((w - dec_digits(n).len()) as nat) + dec_digits(n)
    }
}

/// The numeric prefix that selects the files of block number `i`: the index in
/// decimal, zero-padded to at least three digits.
pub open spec fn prefix_chars(i: nat) -> Seq<char> {
    padded_dec(i, 3)
}

fn digit_str(d: u128) -> (r: &'static str)
    requires
        d < 10,
    ensures
        r@ =~= seq![digit_char(d as nat)],
{
    proof {
        reveal_strlit("0");
        reveal_strlit("1");
        reveal_strlit("2");
        reveal_strlit("3");
        reveal_strlit("4");
        reveal_strlit("5");
        reveal_strlit("6");
        reveal_strlit("7");
        reveal_strlit("8");
        reveal_strlit("9");
    }
    if d == 0 {
        "0"
    } else if d == 1 {
        "1"
    } else if d == 2 {
        "2"
    } else if d == 3 {
        "3"
    } else if d == 4 {
        "4"
    } else if d == 5 {
        "5"
    } else if d == 6 {
        "6"
    } else if d == 7 {
        "7"
    } else if d == 8 {
        "8"
    } else {
        "9"
    }
}

/// Renders `n` in decimal.
pub fn to_decimal(n: u128) -> (r: String)
    ensures
        r@ == dec_digits(n as nat),
    decreases n,
{
    if n < 10 {
        let r = String::from_str(digit_str(n));
        proof {
            assert(r@ =~= dec_digits(n as nat));
        }
        r
    } else {
        let mut r = to_decimal(n / 10);
        r.append(digit_str(n % 10));
        proof {
            assert(r@ =~= dec_digits(n as nat));
        }
        r
    }
}

/// Renders `n` in decimal, left-padded with zeros to at least `w` characters.
pub fn to_padded_decimal(n: u128, w: usize) -> (r: String)
    ensures
        r@ == padded_dec(n as nat, w as nat),
{
    let d = to_decimal(n);
    let dl = d.as_str().unicode_len();
    let mut r = String::new();
    let mut j: usize = dl;
    while j < w
        invariant
            dl <= j,
            dl == dec_digits(n as nat).len(),
            j <= w || j == dl,
            r@ =~= zero_chars((j - dl) as nat),
        decreases w - j,
    {
        r.append("0");
        proof {
            reveal_strlit("0");
            assert(r@ =~= zero_chars((j + 1 - dl) as nat));
        }
        j = j + 1;
    }
    r.append(d.as_str());
    proof {
        assert(r@ =~= padded_dec(n as nat, w as nat));
    }
    r
}

} // verus!
