//! Character classes of the JSON grammar, and the few operations on `char`
//! and `String` of the standard library that the parser relies on.

use vstd::prelude::*;

verus! {

/// The four characters that JSON treats as insignificant whitespace.
pub open spec fn is_whitespace(c: char) -> bool {
    c == ' ' || c == '\n' || c == '\r' || c == '\t'
}

/// A decimal digit.
pub open spec fn is_digit(c: char) -> bool {
    '0' <= c && c <= '9'
}

/// Every character of `t` is a decimal digit.
pub open spec fn all_digits(t: Seq<char>) -> bool {
    forall|i: int| 0 <= i < t.len() ==> is_digit(#[trigger] t[i])
}

/// The value of a hexadecimal digit, in either case; `None` for any other
/// character.
pub open spec fn hex_value(c: char) -> Option<nat> {
    if '0' <= c && c <= '9' {
        Some((c as nat - '0' as nat) as nat)
    } else if 'a' <= c && c <= 'f' {
        Some((c as nat - 'a' as nat + 10) as nat)
    } else if 'A' <= c && c <= 'F' {
        Some((c as nat - 'A' as nat + 10) as nat)
    } else {
        None
    }
}

/// The code points that are Unicode scalar values: everything up to
/// `0x10FFFF` but the surrogates.
pub open spec fn is_scalar_value(code: nat) -> bool {
    code <= 0xD7FF || (0xE000 <= code && code <= 0x10FFFF)
}

/// Tells whether `c` is one of the four whitespace characters.
pub fn whitespace(c: char) -> (r: bool)
    ensures
        r == is_whitespace(c),
{
    c == ' ' || c == '\n' || c == '\r' || c == '\t'
}

/// Tells whether `c` is a decimal digit.
pub fn digit(c: char) -> (r: bool)
    ensures
        r == is_digit(c),
{
    '0' <= c && c <= '9'
}

/// The value of `c` read as a hexadecimal digit.
pub fn hex_digit(c: char) -> (r: Option<u32>)
    ensures
        match hex_value(c) {
            Some(d) => r == Some(d as u32) && d < 16,
            None => r.is_none(),
        },
{
    let code: u32 = c as u32;
    if '0' <= c && c <= '9' {
        Some(code - 0x30)
    } else if 'a' <= c && c <= 'f' {
        Some(code - 0x61 + 10)
    } else if 'A' <= c && c <= 'F' {
        Some(code - 0x41 + 10)
    } else {
        None
    }
}

/// The decimal digit that stands for `d`.
pub open spec fn digit_char(d: nat) -> char {
    ('0' as nat + d) as char
}

/// `n` written in decimal, without leading zeros.
pub open spec fn decimal(n: nat) -> Seq<char>
    decreases n,
{
    if n < 10 {
        seq![digit_char(n)]
    } else {
        decimal(n / 10).push(digit_char(n % 10))
    }
}

/// What the `Debug` formatting of the standard library writes for a
/// character: the character between single quotes, escaped where it is not
/// printable.
pub uninterp spec fn debug_form(c: char) -> Seq<char>;

/// Formats a character with `{:?}`.
#[verifier::external_body]
pub(crate) fn char_debug(c: char) -> (s: String)
    ensures
        s@ == debug_form(c),
{
    format!("{:?}", c)
}

/// Appends `n` in decimal to `s`.
pub fn push_decimal(s: &mut String, n: usize)
    ensures
        final(s)@ == old(s)@ + decimal(n as nat),
    decreases n,
{
    if n >= 10 {
        push_decimal(s, n / 10);
    }
    let d: u8 = (n % 10) as u8;
    s.push((0x30u8 + d) as char);
}

/// `String::push` of the standard library: the character is appended at the
/// end, and nothing else changes.
pub assume_specification[ std::string::String::push ](s: &mut std::string::String, ch: char)
    ensures
        final(s)@ == old(s)@.push(ch),
;

/// `char::from_u32` of the standard library: a scalar value is turned into
/// the character with that code, and anything else gives `None`.
pub assume_specification[ char::from_u32 ](i: u32) -> (r: Option<char>)
    ensures
        is_scalar_value(i as nat) ==> r == Some(i as char),
        !is_scalar_value(i as nat) ==> r.is_none(),
;

} // verus!
