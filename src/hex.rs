//! Hexadecimal digits as ASCII bytes: `0`-`9` are 0x30-0x39, `A`-`F` are
//! 0x41-0x46 and `a`-`f` are 0x61-0x66.

use vstd::prelude::*;

verus! {

/// The uppercase ASCII hexadecimal digit for a value below sixteen.
pub open spec fn hex_digit(n: u8) -> u8
    recommends
        n < 16,
{
    if n < 10 {
        (0x30 + n) as u8
    } else {
        (0x41 + (n - 10)) as u8
    }
}

/// The value of an ASCII hexadecimal digit, either case; `None` for any other byte.
pub open spec fn hex_value(digit: u8) -> Option<u8> {
    if 0x30 <= digit <= 0x39 {
        Some((digit - 0x30) as u8)
    } else if 0x41 <= digit <= 0x46 {
        Some((digit - 0x41 + 10) as u8)
    } else if 0x61 <= digit <= 0x66 {
        Some((digit - 0x61 + 10) as u8)
    } else {
        None
    }
}

/// Reading back the digit written for a value gives that value.
pub proof fn lemma_hex_value_of_digit(n: u8)
    requires
        n < 16,
    ensures
        hex_value(hex_digit(n)) == Some(n),
{
}

/// A digit's value is below sixteen.
pub proof fn lemma_hex_value_bound(digit: u8)
    ensures
        hex_value(digit) matches Some(v) ==> v < 16,
{
}

/// Parses one hexadecimal digit, in upper or lower case.
pub fn from_hex_digit(digit: u8) -> (r: Option<u8>)
    ensures
        r == hex_value(digit),
{
    if 0x30 <= digit && digit <= 0x39 {
        Some(digit - 0x30)
    } else if 0x41 <= digit && digit <= 0x46 {
        Some(digit - 0x41 + 10)
    } else if 0x61 <= digit && digit <= 0x66 {
        Some(digit - 0x61 + 10)
    } else {
        None
    }
}

/// Writes a value below sixteen as one uppercase hexadecimal digit.
pub fn to_hex_digit(digit: u8) -> (r: u8)
    requires
        digit < 16,
    ensures
        r == hex_digit(digit),
{
    if digit < 10 {
        0x30 + digit
    } else {
        0x41 + (digit - 10)
    }
}

} // verus!
