//! Character classes of the CSS syntax, as spec predicates with executable twins.
use vstd::prelude::*;

verus! {

/// Tab, line feed, form feed or space.
pub open spec fn is_whitespace(c: char) -> bool {
    c == '\t' || c == '\n' || c == '\x0C' || c == ' '
}

/// Line feed or form feed: the characters that end an escape or a string.
pub open spec fn is_newline(c: char) -> bool {
    c == '\n' || c == '\x0C'
}

/// ASCII letter or underscore: may start a name.
pub open spec fn is_name_start_ascii(c: char) -> bool {
    ('a' <= c && c <= 'z') || ('A' <= c && c <= 'Z') || c == '_'
}

/// ASCII digit.
pub open spec fn is_digit(c: char) -> bool {
    '0' <= c && c <= '9'
}

/// ASCII character that may continue a name.
pub open spec fn is_name_ascii(c: char) -> bool {
    is_name_start_ascii(c) || is_digit(c) || c == '-'
}

/// Non-ASCII characters, from U+00A0 on, count as name characters.
pub open spec fn is_non_ascii(c: char) -> bool {
    c >= '\u{A0}'
}

/// Hexadecimal digit, either case.
pub open spec fn is_hex(c: char) -> bool {
    is_digit(c) || ('a' <= c && c <= 'f') || ('A' <= c && c <= 'F')
}

/// Value of a hexadecimal digit.
pub open spec fn hex_digit_value(c: char) -> nat {
    if is_digit(c) {
        (c as int - '0' as int) as nat
    } else if 'a' <= c && c <= 'f' {
        (c as int - 'a' as int + 10) as nat
    } else {
        (c as int - 'A' as int + 10) as nat
    }
}

/// Characters that make an unquoted URL bad.
pub open spec fn is_non_printable(c: char) -> bool {
    ('\x00' <= c && c <= '\x08') || ('\x0E' <= c && c <= '\x1F') || ('\x7F' <= c && c
        <= '\u{9F}')
}

pub fn whitespace(c: char) -> (b: bool)
    ensures
        b == is_whitespace(c),
{
    c == '\t' || c == '\n' || c == '\x0C' || c == ' '
}

pub fn newline(c: char) -> (b: bool)
    ensures
        b == is_newline(c),
{
    c == '\n' || c == '\x0C'
}

pub fn name_start_ascii(c: char) -> (b: bool)
    ensures
        b == is_name_start_ascii(c),
{
    ('a' <= c && c <= 'z') || ('A' <= c && c <= 'Z') || c == '_'
}

pub fn name_ascii(c: char) -> (b: bool)
    ensures
        b == is_name_ascii(c),
{
    name_start_ascii(c) || ('0' <= c && c <= '9') || c == '-'
}

pub fn non_ascii(c: char) -> (b: bool)
    ensures
        b == is_non_ascii(c),
{
    c >= '\u{A0}'
}

pub fn hex_digit(c: char) -> (b: bool)
    ensures
        b == is_hex(c),
{
    ('0' <= c && c <= '9') || ('a' <= c && c <= 'f') || ('A' <= c && c <= 'F')
}

pub fn non_printable(c: char) -> (b: bool)
    ensures
        b == is_non_printable(c),
{
    ('\x00' <= c && c <= '\x08') || ('\x0E' <= c && c <= '\x1F') || ('\x7F' <= c && c
        <= '\u{9F}')
}

pub fn digit_value(c: char) -> (v: u32)
    requires
        is_hex(c),
    ensures
        v == hex_digit_value(c),
        v < 16,
{
    if '0' <= c && c <= '9' {
        (c as u32) - ('0' as u32)
    } else if 'a' <= c && c <= 'f' {
        (c as u32) - ('a' as u32) + 10
    } else {
        (c as u32) - ('A' as u32) + 10
    }
}

} // verus!
