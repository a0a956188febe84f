//! The escape table shared by the parser and the serializer, and the
//! textual forms of integers.
use vstd::prelude::*;

verus! {

/// ASCII whitespace as JSON and `u8::is_ascii_whitespace` know it.
pub open spec fn is_ws(b: u8) -> bool {
    b == 0x20 || b == 0x09 || b == 0x0a || b == 0x0c || b == 0x0d
}

pub open spec fn is_digit(b: u8) -> bool {
    0x30 <= b <= 0x39
}

/// The letter that follows a backslash in the escaped form of `b`, for the
/// bytes that must be escaped.
pub open spec fn escape_letter(b: u8) -> Option<u8> {
    if b == 0x22 {
        Some(0x22u8)  // "
    } else if b == 0x5c {
        Some(0x5cu8)  // \
    } else if b == 0x2f {
        Some(0x2fu8)  // /
    } else if b == 0x08 {
        Some(0x62u8)  // b
    } else if b == 0x0c {
        Some(0x66u8)  // f
    } else if b == 0x0a {
        Some(0x6eu8)  // n
    } else if b == 0x0d {
        Some(0x72u8)  // r
    } else if b == 0x09 {
        Some(0x74u8)  // t
    } else {
        None
    }
}

/// The byte that the escape `\` followed by `letter` stands for.
pub open spec fn unescape_letter(letter: u8) -> Option<u8> {
    if letter == 0x22 {
        Some(0x22u8)
    } else if letter == 0x5c {
        Some(0x5cu8)
    } else if letter == 0x2f {
        Some(0x2fu8)
    } else if letter == 0x62 {
        Some(0x08u8)
    } else if letter == 0x66 {
        Some(0x0cu8)
    } else if letter == 0x6e {
        Some(0x0au8)
    } else if letter == 0x72 {
        Some(0x0du8)
    } else if letter == 0x74 {
        Some(0x09u8)
    } else {
        None
    }
}

/// Escaping and unescaping are inverse on the escape table.
pub proof fn lemma_escape_table_inverse(b: u8)
    ensures
        escape_letter(b) matches Some(l) ==> unescape_letter(l) == Some(b),
        unescape_letter(b) matches Some(c) ==> escape_letter(c) == Some(b),
{
}

/// The letter after the backslash when `c` must be escaped, or `None`.
pub fn get_required_escape_sequence(c: u8) -> (r: Option<u8>)
    ensures
        r == escape_letter(c),
{
    match c {
        0x22 => Some(0x22),
        0x5c => Some(0x5c),
        0x2f => Some(0x2f),
        0x08 => Some(0x62),
        0x0c => Some(0x66),
        0x0a => Some(0x6e),
        0x0d => Some(0x72),
        0x09 => Some(0x74),
        _ => None,
    }
}

/// The byte that `\` followed by `c` stands for, or `None` when that is no escape.
pub fn get_required_unescaped_char(c: u8) -> (r: Option<u8>)
    ensures
        r == unescape_letter(c),
{
    match c {
        0x22 => Some(0x22),
        0x5c => Some(0x5c),
        0x2f => Some(0x2f),
        0x62 => Some(0x08),
        0x66 => Some(0x0c),
        0x6e => Some(0x0a),
        0x72 => Some(0x0d),
        0x74 => Some(0x09),
        _ => None,
    }
}

/// The base-10 digits of `n`, most significant first, without leading zeros.
pub open spec fn digits_of(n: nat) -> Seq<u8>
    decreases n,
{
    if n < 10 {
        seq![(0x30 + n) as u8]
    } else {
        digits_of(n / 10).push((0x30 + n % 10) as u8)
    }
}

/// Canonical base-10 text of an integer: `-` only when negative, no `+`,
/// no leading zeros.
pub open spec fn decimal(n: int) -> Seq<u8> {
    if n < 0 {
        seq![0x2du8] + digits_of((-n) as nat)
    } else {
        digits_of(n as nat)
    }
}

/// The number that a run of ASCII digits denotes.
pub open spec fn digits_value(s: Seq<u8>) -> int
    decreases s.len(),
{
    if s.len() == 0 {
        0
    } else {
        digits_value(s.drop_last()) * 10 + (s.last() - 0x30)
    }
}

pub open spec fn fits_i64(v: int) -> bool {
    i64::MIN <= v <= i64::MAX
}

} // verus!
