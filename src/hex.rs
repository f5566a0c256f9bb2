//! Rendering of 4-bit values as hexadecimal digits.

use vstd::prelude::*;

verus! {

/// The upper-case hexadecimal digit of `x`.
pub open spec fn hex_digit(x: u8) -> char {
    if x < 10 {
        (48 + x) as char
    } else {
        (55 + x) as char
    }
}

/// The upper-case hexadecimal digit of a 4-bit value.
pub fn format_hex_char(x: u8) -> (c: char)
    requires
        x < 16,
    ensures
        c == hex_digit(x),
{
    if x < 10 {
        ('0' as u8 + x) as char
    } else {
        ('A' as u8 - 10 + x) as char
    }
}

/// Whether a displayed value is shown highlighted: those above 8 are.
pub fn is_highlighted(x: u8) -> (r: bool)
    ensures
        r == (x > 8),
{
    x > 8
}

} // verus!
