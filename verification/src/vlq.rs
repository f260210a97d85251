//! Base64 variable-length quantities: the digit alphabet and the signed
//! integer encoding that mapping segments are written in.

use vstd::prelude::*;
use crate::text::push_char;

verus! {

/// The base64 character that stands for the six-bit value `d`.
pub open spec fn base64_digit(d: int) -> char
    recommends
        0 <= d < 64,
{
    if d < 26 {
        (65 + d) as char
    } else if d < 52 {
        (97 + (d - 26)) as char
    } else if d < 62 {
        (48 + (d - 52)) as char
    } else if d == 62 {
        '+'
    } else {
        '/'
    }
}

/// The six-bit value that the base64 character `c` stands for, if it is one.
pub open spec fn base64_value(c: char) -> Option<int> {
    let u = c as int;
    if 65 <= u <= 90 {
        Some(u - 65)
    } else if 97 <= u <= 122 {
        Some(u - 97 + 26)
    } else if 48 <= u <= 57 {
        Some(u - 48 + 52)
    } else if c == '+' {
        Some(62)
    } else if c == '/' {
        Some(63)
    } else {
        None
    }
}

/// Computes the base64 character for a six-bit value.
pub fn base64_char(d: u8) -> (c: char)
    requires
        d < 64,
    ensures
        c == base64_digit(d as int),
{
    if d < 26 {
        (65 + d) as char
    } else if d < 52 {
        (97 + (d - 26)) as char
    } else if d < 62 {
        (48 + (d - 52)) as char
    } else if d == 62 {
        '+'
    } else {
        '/'
    }
}

/// The base64 digits of the unsigned quantity `n`, least significant five
/// bits first; every digit but the last carries the continuation bit (32).
pub open spec fn vlq_digits(n: nat) -> Seq<char>
    decreases n,
{
    if n < 32 {
        seq![base64_digit(n as int)]
    } else {
        seq![base64_digit(32 + (n % 32) as int)] + vlq_digits(n / 32)
    }
}

/// The unsigned quantity that carries the signed value `v`: the magnitude
/// shifted left by one, with the sign in the lowest bit.
pub open spec fn sign_fold(v: int) -> nat {
    if v < 0 {
        (2 * (-v) + 1) as nat
    } else {
        (2 * v) as nat
    }
}

/// The signed value that the unsigned quantity `n` carries.
pub open spec fn sign_unfold(n: nat) -> int {
    if n % 2 == 1 {
        -((n / 2) as int)
    } else {
        (n / 2) as int
    }
}

/// The base64 VLQ text of the signed value `v`.
pub open spec fn vlq(v: int) -> Seq<char> {
    vlq_digits(sign_fold(v))
}

/// Folding a sign into a quantity loses nothing.
pub proof fn lemma_sign_unfold_fold(v: int)
    ensures
        sign_unfold(sign_fold(v)) == v,
{
}

/// Every base64 digit stands for the value it was made from.
pub proof fn lemma_base64_value_digit(d: int)
    requires
        0 <= d < 64,
    ensures
        base64_value(base64_digit(d)) == Some(d),
{
}

/// Appends the base64 VLQ text of `value` to `out`.
pub fn push_vlq(out: &mut String, value: i128)
    requires
        -0x4000_0000_0000_0000_0000_0000_0000_0000 < value
            < 0x4000_0000_0000_0000_0000_0000_0000_0000,
    ensures
        final(out)@ == old(out)@ + vlq(value as int),
{
    let mut rest: u128 = if value < 0 {
        2 * ((-value) as u128) + 1
    } else {
        2 * (value as u128)
    };
    loop
        invariant
            out@ + vlq_digits(rest as nat) == old(out)@ + vlq(value as int),
        decreases rest,
    {
        let low: u8 = (rest % 32) as u8;
        if rest < 32 {
            push_char(out, base64_char(low));
            return;
        }
        push_char(out, base64_char(32 + low));
        proof {
            assert(out@ + vlq_digits((rest / 32) as nat) =~= old(out)@ + vlq(value as int));
        }
        rest = rest / 32;
    }
}

} // verus!
