//! Number formatting for generated text.

use vstd::prelude::*;
use vstd::string::StringExecFns;

verus! {

/// The lower-case hexadecimal digit of `d`.
pub open spec fn hex_digit(d: nat) -> Seq<char> {
    if d == 0 { "0"@ } else if d == 1 { "1"@ } else if d == 2 { "2"@ } else if d == 3 { "3"@ }
    else if d == 4 { "4"@ } else if d == 5 { "5"@ } else if d == 6 { "6"@ } else if d == 7 { "7"@ }
    else if d == 8 { "8"@ } else if d == 9 { "9"@ } else if d == 10 { "a"@ } else if d == 11 { "b"@ }
    else if d == 12 { "c"@ } else if d == 13 { "d"@ } else if d == 14 { "e"@ } else { "f"@ }
}

/// Hexadecimal digits of `n`, most significant first, with no leading zeros.
#[verifier::opaque]
pub open spec fn hex_text(n: nat) -> Seq<char>
    decreases n,
{
    if n < 16 { hex_digit(n) } else { hex_text(n / 16) + hex_digit(n % 16) }
}

/// Decimal digits of `n`, most significant first, with no leading zeros.
#[verifier::opaque]
pub open spec fn dec_text(n: nat) -> Seq<char>
    decreases n,
{
    if n < 10 { hex_digit(n) } else { dec_text(n / 10) + hex_digit(n % 10) }
}

fn digit_str(d: u64) -> (r: &'static str)
    requires
        d < 16,
    ensures
        r@ == hex_digit(d as nat),
{
    if d == 0 { "0" } else if d == 1 { "1" } else if d == 2 { "2" } else if d == 3 { "3" }
    else if d == 4 { "4" } else if d == 5 { "5" } else if d == 6 { "6" } else if d == 7 { "7" }
    else if d == 8 { "8" } else if d == 9 { "9" } else if d == 10 { "a" } else if d == 11 { "b" }
    else if d == 12 { "c" } else if d == 13 { "d" } else if d == 14 { "e" } else { "f" }
}

/// Appends the hexadecimal digits of `n`.
pub fn push_hex(s: &mut String, n: u64)
    ensures
        final(s)@ == old(s)@ + hex_text(n as nat),
    decreases n,
{
    if n >= 16 {
        push_hex(s, n / 16);
    }
    s.append(digit_str(n % 16));
    reveal(hex_text);
    assert(final(s)@ =~= old(s)@ + hex_text(n as nat));
}

/// Appends the decimal digits of `n`.
pub fn push_dec(s: &mut String, n: u64)
    ensures
        final(s)@ == old(s)@ + dec_text(n as nat),
    decreases n,
{
    if n >= 10 {
        push_dec(s, n / 10);
    }
    s.append(digit_str(n % 10));
    reveal(dec_text);
    assert(final(s)@ =~= old(s)@ + dec_text(n as nat));
}

} // verus!
