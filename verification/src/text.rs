//! Number and text helpers shared by the other modules.

use vstd::prelude::*;

verus! {

/// The character of a digit value below 16, lower case for the hex digits.
pub open spec fn digit_char(d: nat) -> char {
    if d < 10 {
        (48 + d) as char
    } else {
        (87 + d) as char
    }
}

/// `n` written in base `radix` without leading zeros (`"0"` for zero).
pub open spec fn radix_text(n: nat, radix: nat) -> Seq<char>
    decreases n,
{
    if radix < 2 || n < radix {
        seq![digit_char(n)]
    } else {
        proof {
            assert(n / radix < n) by (nonlinear_arith)
                requires
                    radix >= 2,
                    n >= radix,
            ;
        }
        radix_text(n / radix, radix).push(digit_char(n % radix))
    }
}

/// `n` in decimal, as `{}` formats an unsigned integer.
pub open spec fn decimal_text(n: nat) -> Seq<char> {
    radix_text(n, 10)
}

/// `n` in lower-case hex, as `{:x}` formats an unsigned integer.
pub open spec fn hex_text(n: nat) -> Seq<char> {
    radix_text(n, 16)
}

/// `String::push`: appends one character.
#[verifier::external_body]
pub(crate) fn push_char(s: &mut String, c: char)
    ensures
        final(s)@ == old(s)@.push(c),
{
    s.push(c);
}

/// Appends `n` in base `radix` (10 or 16).
pub fn push_radix(s: &mut String, n: u128, radix: u128)
    requires
        radix == 10 || radix == 16,
    ensures
        final(s)@ == old(s)@ + radix_text(n as nat, radix as nat),
    decreases n,
{
    if n >= radix {
        push_radix(s, n / radix, radix);
    }
    let d = n % radix;
    let c: char = if d < 10 {
        ((48u8 + d as u8) as char)
    } else {
        ((87u8 + d as u8) as char)
    };
    push_char(s, c);
    assert(final(s)@ == old(s)@ + radix_text(n as nat, radix as nat)) by {
        if n >= radix {
            assert(radix_text(n as nat, radix as nat) == radix_text((n / radix) as nat, radix as nat).push(digit_char((n % radix) as nat)));
        }
    }
}

} // verus!
