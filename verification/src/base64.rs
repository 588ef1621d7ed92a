//! The base-64 alphabet used by the packed stream format.
//!
//! The alphabet is `A-Z` (0-25), `a-z` (26-51), `0-9` (52-61), `+` (62) and
//! `/` (63).  No `=` padding is ever read: the stream length is exact.

use vstd::prelude::*;

verus! {

/// The numeric value of a base-64 character, or -1 if the character is not
/// part of the base-64 alphabet.
pub open spec fn b64_index(c: char) -> int {
    let u = c as int;
    if 'A' as int <= u && u <= 'Z' as int {
        u - 'A' as int
    } else if 'a' as int <= u && u <= 'z' as int {
        u - 'a' as int + 26
    } else if '0' as int <= u && u <= '9' as int {
        u - '0' as int + 52
    } else if u == '+' as int {
        62
    } else if u == '/' as int {
        63
    } else {
        -1
    }
}

/// Whether a character belongs to the base-64 alphabet.
pub open spec fn is_b64_char(c: char) -> bool {
    b64_index(c) >= 0
}

/// Look up the value of a character, or `None` if it is not base-64.
pub fn b64_value(c: char) -> (r: Option<u32>)
    ensures
        r matches Some(v) ==> v == b64_index(c),
        r is None <==> !is_b64_char(c),
{
    let u = c as u32;
    if u >= 'A' as u32 && u <= 'Z' as u32 {
        Some(u - 'A' as u32)
    } else if u >= 'a' as u32 && u <= 'z' as u32 {
        Some(u - 'a' as u32 + 26)
    } else if u >= '0' as u32 && u <= '9' as u32 {
        Some(u - '0' as u32 + 52)
    } else if u == '+' as u32 {
        Some(62)
    } else if u == '/' as u32 {
        Some(63)
    } else {
        None
    }
}

/// Look up the integer value of a base64 character.
pub fn char_to_int(c: &char) -> (r: u32)
    requires
        is_b64_char(*c),
    ensures
        r == b64_index(*c),
{
    b64_value(*c).unwrap()
}

/// Look up the base64 character value of an integer.
pub fn int_to_char(i: &u32) -> (r: char)
    requires
        *i < 64,
    ensures
        b64_index(r) == *i,
        is_b64_char(r),
{
    let v = *i as u8;
    if v < 26 {
        ('A' as u8 + v) as char
    } else if v < 52 {
        ('a' as u8 + (v - 26)) as char
    } else if v < 62 {
        ('0' as u8 + (v - 52)) as char
    } else if v == 62 {
        '+'
    } else {
        '/'
    }
}

} // verus!
