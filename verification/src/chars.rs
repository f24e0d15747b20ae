//! Character classes used by the scanner and by the string quoting rules.
use vstd::prelude::*;

verus! {

/// A line break character: `\n` or `\r`.
pub open spec fn spec_is_newline_char(ch: char) -> bool {
    ch == '\n' || ch == '\r'
}

pub fn is_newline_char(ch: char) -> (res: bool)
    ensures
        res == spec_is_newline_char(ch),
{
    ch == '\n' || ch == '\r'
}

/// The Unicode `White_Space` property, which is what `char::is_whitespace` tests.
pub open spec fn spec_is_whitespace(ch: char) -> bool {
    ||| ('\u{09}' <= ch && ch <= '\u{0d}')
    ||| ch == ' '
    ||| ch == '\u{85}'
    ||| ch == '\u{a0}'
    ||| ch == '\u{1680}'
    ||| ('\u{2000}' <= ch && ch <= '\u{200a}')
    ||| ch == '\u{2028}'
    ||| ch == '\u{2029}'
    ||| ch == '\u{202f}'
    ||| ch == '\u{205f}'
    ||| ch == '\u{3000}'
}

pub fn is_whitespace(ch: char) -> (res: bool)
    ensures
        res == spec_is_whitespace(ch),
{
    ('\u{09}' <= ch && ch <= '\u{0d}') || ch == ' ' || ch == '\u{85}' || ch == '\u{a0}'
        || ch == '\u{1680}' || ('\u{2000}' <= ch && ch <= '\u{200a}') || ch == '\u{2028}'
        || ch == '\u{2029}' || ch == '\u{202f}' || ch == '\u{205f}' || ch == '\u{3000}'
}

/// The Unicode general category `Cc`, which is what `char::is_control` tests.
pub open spec fn spec_is_control(ch: char) -> bool {
    ch <= '\u{1f}' || ('\u{7f}' <= ch && ch <= '\u{9f}')
}

pub fn is_control(ch: char) -> (res: bool)
    ensures
        res == spec_is_control(ch),
{
    ch <= '\u{1f}' || ('\u{7f}' <= ch && ch <= '\u{9f}')
}

pub open spec fn spec_is_ascii_digit(ch: char) -> bool {
    '0' <= ch && ch <= '9'
}

pub fn is_ascii_digit(ch: char) -> (res: bool)
    ensures
        res == spec_is_ascii_digit(ch),
{
    '0' <= ch && ch <= '9'
}

pub open spec fn spec_is_ascii_hexdigit(ch: char) -> bool {
    ||| ('0' <= ch && ch <= '9')
    ||| ('a' <= ch && ch <= 'f')
    ||| ('A' <= ch && ch <= 'F')
}

pub fn is_ascii_hexdigit(ch: char) -> (res: bool)
    ensures
        res == spec_is_ascii_hexdigit(ch),
{
    ('0' <= ch && ch <= '9') || ('a' <= ch && ch <= 'f') || ('A' <= ch && ch <= 'F')
}

/// Whitespace that does not end a line; the byte order mark counts as whitespace.
pub open spec fn spec_is_inline_whitespace(ch: char) -> bool {
    !spec_is_newline_char(ch) && (spec_is_whitespace(ch) || ch == '\u{feff}')
}

pub fn is_inline_whitespace(ch: char) -> (res: bool)
    ensures
        res == spec_is_inline_whitespace(ch),
{
    !is_newline_char(ch) && (is_whitespace(ch) || ch == '\u{feff}')
}

/// Characters that end an unquoted token (and `.` too where a path is read).
pub open spec fn spec_is_forbidden_unquoted_char(ch: char, stop_at_dot: bool) -> bool {
    ||| spec_is_newline_char(ch)
    ||| spec_is_whitespace(ch)
    ||| ch == '$' || ch == '"' || ch == '{' || ch == '}' || ch == '[' || ch == ']'
    ||| ch == ':' || ch == '=' || ch == ',' || ch == '#' || ch == '`' || ch == '^'
    ||| ch == '?' || ch == '!' || ch == '@' || ch == '*' || ch == '&' || ch == '\\'
    ||| ch == '+'
    ||| (stop_at_dot && ch == '.')
}

pub fn is_forbidden_unquoted_char(ch: char, stop_at_dot: bool) -> (res: bool)
    ensures
        res == spec_is_forbidden_unquoted_char(ch, stop_at_dot),
{
    is_newline_char(ch) || is_whitespace(ch) || ch == '$' || ch == '"' || ch == '{' || ch == '}'
        || ch == '[' || ch == ']' || ch == ':' || ch == '=' || ch == ',' || ch == '#'
        || ch == '`' || ch == '^' || ch == '?' || ch == '!' || ch == '@' || ch == '*'
        || ch == '&' || ch == '\\' || ch == '+' || (stop_at_dot && ch == '.')
}

/// The value of a hexadecimal digit.
pub open spec fn spec_hex_digit_value(ch: char) -> u32 {
    if '0' <= ch && ch <= '9' {
        (ch as u32 - '0' as u32) as u32
    } else if 'a' <= ch && ch <= 'f' {
        (ch as u32 - 'a' as u32 + 10) as u32
    } else {
        (ch as u32 - 'A' as u32 + 10) as u32
    }
}

pub fn hex_digit_value(ch: char) -> (res: u32)
    requires
        spec_is_ascii_hexdigit(ch),
    ensures
        res == spec_hex_digit_value(ch),
        res < 16,
{
    if '0' <= ch && ch <= '9' {
        ch as u32 - '0' as u32
    } else if 'a' <= ch && ch <= 'f' {
        ch as u32 - 'a' as u32 + 10
    } else {
        ch as u32 - 'A' as u32 + 10
    }
}

/// The upper-case hexadecimal digit of a value below sixteen.
pub open spec fn spec_upper_hex_digit(n: u32) -> char {
    if n == 0 { '0' } else if n == 1 { '1' } else if n == 2 { '2' } else if n == 3 { '3' }
    else if n == 4 { '4' } else if n == 5 { '5' } else if n == 6 { '6' } else if n == 7 { '7' }
    else if n == 8 { '8' } else if n == 9 { '9' } else if n == 10 { 'A' } else if n == 11 { 'B' }
    else if n == 12 { 'C' } else if n == 13 { 'D' } else if n == 14 { 'E' } else { 'F' }
}

pub fn upper_hex_digit(n: u32) -> (res: char)
    ensures
        res == spec_upper_hex_digit(n),
{
    if n == 0 { '0' } else if n == 1 { '1' } else if n == 2 { '2' } else if n == 3 { '3' }
    else if n == 4 { '4' } else if n == 5 { '5' } else if n == 6 { '6' } else if n == 7 { '7' }
    else if n == 8 { '8' } else if n == 9 { '9' } else if n == 10 { 'A' } else if n == 11 { 'B' }
    else if n == 12 { 'C' } else if n == 13 { 'D' } else if n == 14 { 'E' } else { 'F' }
}

} // verus!
