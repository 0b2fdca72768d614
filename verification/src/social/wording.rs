//! Numbers as the words a player reads: decimal digits, with a sign where
//! one is asked for.

use vstd::prelude::*;
use vstd::string::*;

verus! {

/// The text of one decimal digit.
pub open spec fn digit_text(d: nat) -> Seq<char> {
    if d == 0 {
        "0"@
    } else if d == 1 {
        "1"@
    } else if d == 2 {
        "2"@
    } else if d == 3 {
        "3"@
    } else if d == 4 {
        "4"@
    } else if d == 5 {
        "5"@
    } else if d == 6 {
        "6"@
    } else if d == 7 {
        "7"@
    } else if d == 8 {
        "8"@
    } else {
        "9"@
    }
}

/// A natural number in decimal, most significant digit first, with no
/// leading zeros.
pub open spec fn decimal(n: nat) -> Seq<char>
    decreases n,
{
    if n < 10 {
        digit_text(n)
    } else {
        decimal(n / 10) + digit_text(n % 10)
    }
}

/// An integer in decimal, with a minus sign when negative.
pub open spec fn signed(v: int) -> Seq<char> {
    if v < 0 {
        "-"@ + decimal((-v) as nat)
    } else {
        decimal(v as nat)
    }
}

/// An integer in decimal, always with its sign.
pub open spec fn plus_signed(v: int) -> Seq<char> {
    if v < 0 {
        "-"@ + decimal((-v) as nat)
    } else {
        "+"@ + decimal(v as nat)
    }
}

fn digit(d: u64) -> (text: &'static str)
    requires
        d < 10,
    ensures
        text@ == digit_text(d as nat),
{
    if d == 0 {
        "0"
    } else if d == 1 {
        "1"
    } else if d == 2 {
        "2"
    } else if d == 3 {
        "3"
    } else if d == 4 {
        "4"
    } else if d == 5 {
        "5"
    } else if d == 6 {
        "6"
    } else if d == 7 {
        "7"
    } else if d == 8 {
        "8"
    } else {
        "9"
    }
}

/// Appends `n` in decimal.
pub fn push_decimal(text: &mut String, n: u64)
    ensures
        final(text)@ == old(text)@ + decimal(n as nat),
    decreases n,
{
    if n < 10 {
        text.append(digit(n));
    } else {
        push_decimal(text, n / 10);
        text.append(digit(n % 10));
        proof {
            assert(final(text)@ =~= old(text)@ + decimal(n as nat));
        }
    }
}

/// Appends `v` in decimal, with a minus sign when negative.
pub fn push_signed(text: &mut String, v: i64)
    requires
        v > i64::MIN,
    ensures
        final(text)@ == old(text)@ + signed(v as int),
{
    if v < 0 {
        text.append("-");
        push_decimal(text, (-v) as u64);
        proof {
            assert(final(text)@ =~= old(text)@ + signed(v as int));
        }
    } else {
        push_decimal(text, v as u64);
    }
}

/// Appends `v` in decimal, always with its sign.
pub fn push_plus_signed(text: &mut String, v: i64)
    requires
        v > i64::MIN,
    ensures
        final(text)@ == old(text)@ + plus_signed(v as int),
{
    if v < 0 {
        text.append("-");
    } else {
        text.append("+");
    }
    let magnitude: u64 = if v < 0 {
        (-v) as u64
    } else {
        v as u64
    };
    push_decimal(text, magnitude);
    proof {
        assert(final(text)@ =~= old(text)@ + plus_signed(v as int));
    }
}

} // verus!
