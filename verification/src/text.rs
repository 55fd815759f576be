//! Verified text building: decimal rendering of integers, fixed-point
//! rendering of gains, and separator-joined lists.

use vstd::prelude::*;
use vstd::string::StringExecFns;

verus! {

/// The decimal digit character for `d` in `0..10`.
pub open spec fn dec_digit(d: int) -> char {
    if d == 0 {
        '0'
    } else if d == 1 {
        '1'
    } else if d == 2 {
        '2'
    } else if d == 3 {
        '3'
    } else if d == 4 {
        '4'
    } else if d == 5 {
        '5'
    } else if d == 6 {
        '6'
    } else if d == 7 {
        '7'
    } else if d == 8 {
        '8'
    } else {
        '9'
    }
}

/// The usual decimal rendering of `n`, most significant digit first, no
/// leading zeros (except for `n == 0` itself).
pub open spec fn dec_digits(n: nat) -> Seq<char>
    decreases n,
{
    if n < 10 {
        seq![dec_digit(n as int)]
    } else {
        dec_digits(n / 10) + seq![dec_digit((n % 10) as int)]
    }
}

/// `parts[0] sep parts[1] sep ... sep parts[i-1]`.
pub open spec fn joined(parts: Seq<Seq<char>>, sep: Seq<char>, i: int) -> Seq<char>
    decreases i,
{
    if i <= 0 {
        Seq::empty()
    } else if i == 1 {
        parts[0]
    } else {
        joined(parts, sep, i - 1) + sep + parts[i - 1]
    }
}

/// The views of a sequence of strings.
pub open spec fn str_views(ss: Seq<String>) -> Seq<Seq<char>> {
    ss.map_values(|s: String| s@)
}

/// A one-character string slice holding the decimal digit for `d`.
pub fn digit_str(d: usize) -> (r: &'static str)
    requires
        d < 10,
    ensures
        r@ == seq![dec_digit(d as int)],
{
    proof {
        reveal_strlit("0");
        reveal_strlit("1");
        reveal_strlit("2");
        reveal_strlit("3");
        reveal_strlit("4");
        reveal_strlit("5");
        reveal_strlit("6");
        reveal_strlit("7");
        reveal_strlit("8");
        reveal_strlit("9");
    }
    let r = match d {
        0 => "0",
        1 => "1",
        2 => "2",
        3 => "3",
        4 => "4",
        5 => "5",
        6 => "6",
        7 => "7",
        8 => "8",
        _ => "9",
    };
    proof {
        assert(r@ =~= seq![dec_digit(d as int)]);
    }
    r
}

/// Appends the decimal rendering of `n` to `s`.
pub fn push_u128(s: &mut String, n: u128)
    ensures
        final(s)@ == old(s)@ + dec_digits(n as nat),
    decreases n,
{
    let ghost base: Seq<char> = s@;
    if n >= 10 {
        push_u128(s, n / 10);
    }
    s.append(digit_str((n % 10) as usize));
    proof {
        assert(s@ =~= base + dec_digits(n as nat));
    }
}

/// Appends the decimal rendering of `n` to `s`.
pub fn push_usize(s: &mut String, n: usize)
    ensures
        final(s)@ == old(s)@ + dec_digits(n as nat),
{
    push_u128(s, n as u128);
}

/// The rendering of the fixed-point value `v` (in ten-thousandths) with four
/// decimal places: an optional minus sign, the integer part, a point, and
/// the four fraction digits.
pub open spec fn scaled_text(v: int) -> Seq<char> {
    if v < 0 {
        seq!['-'] + scaled_mag_text((-v) as nat)
    } else {
        scaled_mag_text(v as nat)
    }
}

/// The rendering of the non-negative fixed-point magnitude `m`.
pub open spec fn scaled_mag_text(m: nat) -> Seq<char> {
    dec_digits(m / 10000) + seq!['.'] + frac4((m % 10000) as nat)
}

/// The four zero-padded fraction digits of `f < 10000`.
pub open spec fn frac4(f: nat) -> Seq<char> {
    seq![
        dec_digit((f / 1000) as int),
        dec_digit(((f / 100) % 10) as int),
        dec_digit(((f / 10) % 10) as int),
        dec_digit((f % 10) as int),
    ]
}

/// Appends the four-decimal rendering of the fixed-point value `v` to `s`.
pub fn push_scaled(s: &mut String, v: i128)
    requires
        v > i128::MIN,
    ensures
        final(s)@ == old(s)@ + scaled_text(v as int),
{
    let ghost base: Seq<char> = s@;
    let m: u128 = if v < 0 {
        s.append("-");
        proof {
            reveal_strlit("-");
        }
        (-v) as u128
    } else {
        v as u128
    };
    push_u128(s, m / 10000);
    s.append(".");
    proof {
        reveal_strlit(".");
    }
    let f: u128 = m % 10000;
    s.append(digit_str((f / 1000) as usize));
    s.append(digit_str(((f / 100) % 10) as usize));
    s.append(digit_str(((f / 10) % 10) as usize));
    s.append(digit_str((f % 10) as usize));
    proof {
        assert(s@ =~= base + scaled_text(v as int));
    }
}

/// The decimal rendering of `n` as an owned string.
pub fn usize_string(n: usize) -> (r: String)
    ensures
        r@ == dec_digits(n as nat),
{
    let mut s = String::new();
    push_usize(&mut s, n);
    proof {
        assert(s@ =~= dec_digits(n as nat));
    }
    s
}

/// Appends `parts` joined by `sep` to `s`.
pub fn push_joined(s: &mut String, parts: &Vec<String>, sep: &str)
    ensures
        final(s)@ == old(s)@ + joined(str_views(parts@), sep@, parts@.len() as int),
{
    let ghost base: Seq<char> = s@;
    let mut i: usize = 0;
    while i < parts.len()
        invariant
            0 <= i <= parts@.len(),
            s@ == base + joined(str_views(parts@), sep@, i as int),
        decreases parts@.len() - i,
    {
        if i > 0 {
            s.append(sep);
        }
        s.append(parts[i].as_str());
        i = i + 1;
        proof {
            assert(s@ =~= base + joined(str_views(parts@), sep@, i as int));
        }
    }
}

} // verus!
