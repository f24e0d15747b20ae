//! Quoting text as a HOCON string, and decoding string literals.
use vstd::prelude::*;
use crate::chars::{
    is_ascii_hexdigit, hex_digit_value, is_control, upper_hex_digit, spec_is_ascii_hexdigit,
    spec_hex_digit_value, spec_is_control, spec_upper_hex_digit,
};
use crate::error::{ErrorKind, ParseError, SError};
use crate::ast::StringLiteral;

verus! {

// ---------------------------------------------------------------------------
// Quoting.
// ---------------------------------------------------------------------------

/// The escape sequence that stands for `ch` inside a quoted string.
pub open spec fn spec_escape_char(ch: char) -> Seq<char> {
    if ch == '"' {
        seq!['\\', '"']
    } else if ch == '\\' {
        seq!['\\', '\\']
    } else if ch == '\u{08}' {
        seq!['\\', 'b']
    } else if ch == '\u{0c}' {
        seq!['\\', 'f']
    } else if ch == '\n' {
        seq!['\\', 'n']
    } else if ch == '\r' {
        seq!['\\', 'r']
    } else if ch == '\t' {
        seq!['\\', 't']
    } else if spec_is_control(ch) {
        let code = ch as u32;
        seq![
            '\\',
            'u',
            spec_upper_hex_digit((code / 4096) % 16),
            spec_upper_hex_digit((code / 256) % 16),
            spec_upper_hex_digit((code / 16) % 16),
            spec_upper_hex_digit(code % 16),
        ]
    } else {
        seq![ch]
    }
}

/// The escaped form of the first `n` characters of `v`.
pub open spec fn spec_escape_prefix(v: Seq<char>, n: int) -> Seq<char>
    decreases n,
{
    if n <= 0 || n > v.len() {
        Seq::empty()
    } else {
        spec_escape_prefix(v, n - 1) + spec_escape_char(v[n - 1])
    }
}

/// `v` as a quoted string: between double quotes, each character escaped.
pub open spec fn spec_quote_string(v: Seq<char>) -> Seq<char> {
    seq!['"'] + spec_escape_prefix(v, v.len() as int) + seq!['"']
}

fn push_escaped(out: &mut Vec<char>, ch: char)
    ensures
        final(out)@ == old(out)@ + spec_escape_char(ch),
{
    if ch == '"' {
        out.push('\\');
        out.push('"');
    } else if ch == '\\' {
        out.push('\\');
        out.push('\\');
    } else if ch == '\u{08}' {
        out.push('\\');
        out.push('b');
    } else if ch == '\u{0c}' {
        out.push('\\');
        out.push('f');
    } else if ch == '\n' {
        out.push('\\');
        out.push('n');
    } else if ch == '\r' {
        out.push('\\');
        out.push('r');
    } else if ch == '\t' {
        out.push('\\');
        out.push('t');
    } else if is_control(ch) {
        let code = ch as u32;
        out.push('\\');
        out.push('u');
        out.push(upper_hex_digit((code / 4096) % 16));
        out.push(upper_hex_digit((code / 256) % 16));
        out.push(upper_hex_digit((code / 16) % 16));
        out.push(upper_hex_digit(code % 16));
    } else {
        out.push(ch);
    }
    proof {
        assert(final(out)@ =~= old(out)@ + spec_escape_char(ch));
    }
}

/// Quotes `value` as a HOCON string.
pub fn quote_string(value: &Vec<char>) -> (res: Vec<char>)
    ensures
        res@ == spec_quote_string(value@),
{
    let mut out: Vec<char> = Vec::new();
    out.push('"');
    let mut i: usize = 0;
    while i < value.len()
        invariant
            i <= value@.len(),
            out@ == seq!['"'] + spec_escape_prefix(value@, i as int),
        decreases value@.len() - i,
    {
        push_escaped(&mut out, value[i]);
        i = i + 1;
        proof {
            assert(out@ =~= seq!['"'] + spec_escape_prefix(value@, i as int));
        }
    }
    out.push('"');
    proof {
        assert(out@ =~= spec_quote_string(value@));
    }
    out
}

// ---------------------------------------------------------------------------
// Decoding.
// ---------------------------------------------------------------------------

/// Whether `code` is a Unicode scalar value, i.e. the code of some `char`.
pub open spec fn spec_is_scalar_value(code: u32) -> bool {
    code <= 0x10FFFF && !(0xD800 <= code && code <= 0xDFFF)
}

/// The character with the given code, by std's `char::from_u32`. Trusted: the contract claims,
/// as std documents, that it is `Some` of that character where the code is a scalar value (at
/// most `0x10FFFF` and outside the surrogates `0xD800..=0xDFFF`), and `None` otherwise.
#[verifier::external_body]
fn char_from_u32(code: u32) -> (res: Option<char>)
    ensures
        res == (if spec_is_scalar_value(code) { Some(code as char) } else { None::<char> }),
{
    char::from_u32(code)
}

/// The value of a sequence of hexadecimal digits.
pub open spec fn spec_hex_digits_value(d: Seq<char>) -> int
    decreases d.len(),
{
    if d.len() == 0 {
        0
    } else {
        spec_hex_digits_value(d.drop_last()) * 16 + spec_hex_digit_value(d.last()) as int
    }
}

pub open spec fn spec_all_hex_digits(d: Seq<char>) -> bool {
    forall|i: int| 0 <= i < d.len() ==> spec_is_ascii_hexdigit(#[trigger] d[i])
}

/// `u32::from_str_radix(text, 16)` on text of at most four characters: a `+` sign may lead,
/// then one digit at least must follow, and only hexadecimal digits.
pub open spec fn spec_parse_hex(text: Seq<char>) -> Option<u32> {
    let digits = if text.len() > 0 && text[0] == '+' { text.drop_first() } else { text };
    if digits.len() == 0 || !spec_all_hex_digits(digits) {
        None
    } else {
        Some(spec_hex_digits_value(digits) as u32)
    }
}

proof fn lemma_hex_value_bound(d: Seq<char>)
    requires
        spec_all_hex_digits(d),
    ensures
        0 <= spec_hex_digits_value(d) < pow16(d.len()),
    decreases d.len(),
{
    if d.len() > 0 {
        assert(spec_all_hex_digits(d.drop_last()));
        lemma_hex_value_bound(d.drop_last());
        assert(spec_is_ascii_hexdigit(d[d.len() - 1]));
        assert(spec_hex_digit_value(d.last()) < 16);
    }
}

pub open spec fn pow16(n: nat) -> int
    decreases n,
{
    if n == 0 { 1 } else { 16 * pow16((n - 1) as nat) }
}

fn parse_hex(text: &[char]) -> (res: Option<u32>)
    requires
        text@.len() <= 4,
    ensures
        res == spec_parse_hex(text@),
{
    let start: usize = if text.len() > 0 && text[0] == '+' { 1 } else { 0 };
    let ghost digits = if text@.len() > 0 && text@[0] == '+' { text@.drop_first() } else { text@ };
    proof {
        assert(digits =~= text@.subrange(start as int, text@.len() as int));
    }
    if start == text.len() {
        proof {
            assert(digits.len() == 0);
        }
        return None;
    }
    let mut value: u32 = 0;
    let mut i: usize = start;
    while i < text.len()
        invariant
            start <= i <= text@.len() <= 4,
            start <= 1,
            digits == text@.subrange(start as int, text@.len() as int),
            digits == (if text@.len() > 0 && text@[0] == '+' { text@.drop_first() } else { text@ }),
            spec_all_hex_digits(text@.subrange(start as int, i as int)),
            value as int == spec_hex_digits_value(text@.subrange(start as int, i as int)),
        decreases text@.len() - i,
    {
        let ch = text[i];
        if !is_ascii_hexdigit(ch) {
            proof {
                assert(digits[i - start] == ch);
                assert(!spec_is_ascii_hexdigit(digits[i - start]));
            }
            return None;
        }
        proof {
            let pre = text@.subrange(start as int, i as int);
            lemma_hex_value_bound(pre);
            assert(pre.len() <= 3);
            assert(pow16(pre.len()) <= 4096) by {
                assert(pow16(0) == 1);
                assert(pow16(1) == 16);
                assert(pow16(2) == 256);
                assert(pow16(3) == 4096);
            }
            assert(text@.subrange(start as int, i + 1).drop_last() =~= pre);
        }
        value = value * 16 + hex_digit_value(ch);
        i = i + 1;
        proof {
            let cur = text@.subrange(start as int, i as int);
            assert(cur.last() == ch);
            assert forall|j: int| 0 <= j < cur.len() implies spec_is_ascii_hexdigit(#[trigger] cur[j]) by {
                if j < cur.len() - 1 {
                    assert(cur[j] == text@.subrange(start as int, i - 1)[j]);
                }
            }
        }
    }
    proof {
        assert(text@.subrange(start as int, i as int) =~= digits);
    }
    Some(value)
}

/// The error that decoding reports: it carries no position, so line 1, column 1.
pub open spec fn decode_error(kind: ErrorKind) -> SError {
    SError { kind, line: 1, column: 1 }
}

/// Decodes the escapes of `c[i..]`, after `out` was decoded from `c[..i]`.
pub open spec fn spec_decode_escapes_from(c: Seq<char>, i: int, out: Seq<char>) -> Result<Seq<char>, SError>
    decreases c.len() - i,
{
    if i >= c.len() || i < 0 {
        Ok(out)
    } else if c[i] != '\\' {
        spec_decode_escapes_from(c, i + 1, out.push(c[i]))
    } else if i + 1 >= c.len() {
        Err(decode_error(ErrorKind::InvalidEscape))
    } else {
        let e = c[i + 1];
        if e == '"' || e == '\\' || e == '/' {
            spec_decode_escapes_from(c, i + 2, out.push(e))
        } else if e == 'b' {
            spec_decode_escapes_from(c, i + 2, out.push('\u{08}'))
        } else if e == 'f' {
            spec_decode_escapes_from(c, i + 2, out.push('\u{0c}'))
        } else if e == 'n' {
            spec_decode_escapes_from(c, i + 2, out.push('\n'))
        } else if e == 'r' {
            spec_decode_escapes_from(c, i + 2, out.push('\r'))
        } else if e == 't' {
            spec_decode_escapes_from(c, i + 2, out.push('\t'))
        } else if e == 'u' {
            let hex_end = if i + 6 < c.len() { i + 6 } else { c.len() as int };
            match spec_parse_hex(c.subrange(i + 2, hex_end)) {
                None => Err(decode_error(ErrorKind::InvalidUnicodeEscape)),
                Some(code) => if spec_is_scalar_value(code) {
                    spec_decode_escapes_from(c, hex_end, out.push(code as char))
                } else {
                    Err(decode_error(ErrorKind::InvalidScalarValue))
                },
            }
        } else {
            Err(decode_error(ErrorKind::InvalidEscape))
        }
    }
}

/// The text of a quoted string literal: the characters between its quotes, unescaped.
pub open spec fn spec_decode_quoted_string(raw: Seq<char>) -> Result<Seq<char>, SError> {
    spec_decode_escapes_from(raw.subrange(1, raw.len() - 1), 0, Seq::empty())
}

pub fn decode_quoted_string(raw: &Vec<char>) -> (res: Result<Vec<char>, ParseError>)
    requires
        raw@.len() >= 2,
    ensures
        match spec_decode_quoted_string(raw@) {
            Ok(v) => res matches Ok(r) && r@ == v,
            Err(e) => res matches Err(r) && r@ == e,
        },
{
    let end = raw.len() - 1;
    let ghost c = raw@.subrange(1, raw@.len() - 1);
    let mut out: Vec<char> = Vec::new();
    let mut i: usize = 1;
    while i < end
        invariant
            end == raw@.len() - 1,
            1 <= i <= end + 1,
            c == raw@.subrange(1, raw@.len() - 1),
            spec_decode_escapes_from(c, i - 1, out@) == spec_decode_escapes_from(c, 0, Seq::empty()),
        decreases end + 1 - i,
    {
        let ch = raw[i];
        if ch != '\\' {
            out.push(ch);
            i = i + 1;
        } else if i + 1 >= end {
            return Err(ParseError::with_position(ErrorKind::InvalidEscape, 1, 1));
        } else {
            let e = raw[i + 1];
            if e == '"' || e == '\\' || e == '/' {
                out.push(e);
                i = i + 2;
            } else if e == 'b' {
                out.push('\u{08}');
                i = i + 2;
            } else if e == 'f' {
                out.push('\u{0c}');
                i = i + 2;
            } else if e == 'n' {
                out.push('\n');
                i = i + 2;
            } else if e == 'r' {
                out.push('\r');
                i = i + 2;
            } else if e == 't' {
                out.push('\t');
                i = i + 2;
            } else if e == 'u' {
                let hex_end = if end - i > 6 { i + 6 } else { end };
                proof {
                    assert(raw@.subrange(i + 2, hex_end as int) =~= c.subrange(i + 1, hex_end - 1));
                }
                match parse_hex(&raw.as_slice()[i + 2..hex_end]) {
                    None => {
                        return Err(ParseError::with_position(ErrorKind::InvalidUnicodeEscape, 1, 1));
                    },
                    Some(code) => match char_from_u32(code) {
                        Some(decoded) => {
                            out.push(decoded);
                            i = hex_end;
                        },
                        None => {
                            return Err(ParseError::with_position(ErrorKind::InvalidScalarValue, 1, 1));
                        },
                    },
                }
            } else {
                return Err(ParseError::with_position(ErrorKind::InvalidEscape, 1, 1));
            }
        }
    }
    Ok(out)
}

/// The number of double quotes at the end of `raw`.
pub open spec fn spec_trailing_quotes(raw: Seq<char>) -> nat
    decreases raw.len(),
{
    if raw.len() > 0 && raw.last() == '"' {
        1 + spec_trailing_quotes(raw.drop_last())
    } else {
        0
    }
}

proof fn lemma_trailing_quotes_bound(raw: Seq<char>)
    ensures
        spec_trailing_quotes(raw) <= raw.len(),
    decreases raw.len(),
{
    if raw.len() > 0 && raw.last() == '"' {
        lemma_trailing_quotes_bound(raw.drop_last());
    }
}

/// `n` double quotes.
pub open spec fn quotes(n: nat) -> Seq<char> {
    Seq::new(n, |i: int| '"')
}

/// The text of a triple-quoted literal: what stands between the opening three quotes and the
/// closing run of quotes, followed by the quotes of that run beyond three.
pub open spec fn spec_decode_multiline_string(raw: Seq<char>) -> Seq<char> {
    let t = spec_trailing_quotes(raw);
    raw.subrange(3, raw.len() - t) + quotes(if t >= 3 { (t - 3) as nat } else { 0 })
}

fn count_trailing_quotes(raw: &Vec<char>) -> (t: usize)
    ensures
        t == spec_trailing_quotes(raw@),
{
    let mut t: usize = 0;
    proof {
        assert(raw@.subrange(0, raw@.len() as int) =~= raw@);
    }
    while t < raw.len() && raw[raw.len() - 1 - t] == '"'
        invariant
            t <= raw@.len(),
            spec_trailing_quotes(raw@) == t + spec_trailing_quotes(raw@.subrange(0, raw@.len() - t)),
        decreases raw@.len() - t,
    {
        proof {
            let pre = raw@.subrange(0, raw@.len() - t);
            assert(pre.drop_last() =~= raw@.subrange(0, raw@.len() - t - 1));
        }
        t = t + 1;
    }
    proof {
        let pre = raw@.subrange(0, raw@.len() - t);
        if t < raw@.len() {
            assert(pre.last() == raw@[raw@.len() - 1 - t]);
        }
    }
    t
}

pub fn decode_multiline_string(raw: &Vec<char>) -> (res: Vec<char>)
    requires
        3 + spec_trailing_quotes(raw@) <= raw@.len(),
    ensures
        res@ == spec_decode_multiline_string(raw@),
{
    let t = count_trailing_quotes(raw);
    let end = raw.len() - t;
    let mut out: Vec<char> = Vec::new();
    let mut i: usize = 3;
    while i < end
        invariant
            3 <= end <= raw@.len(),
            3 <= i <= end,
            out@ == raw@.subrange(3, i as int),
        decreases end - i,
    {
        out.push(raw[i]);
        i = i + 1;
        proof {
            assert(out@ =~= raw@.subrange(3, i as int));
        }
    }
    let extra = t.saturating_sub(3);
    let mut k: usize = 0;
    while k < extra
        invariant
            k <= extra,
            out@ == raw@.subrange(3, end as int) + quotes(k as nat),
        decreases extra - k,
    {
        out.push('"');
        k = k + 1;
        proof {
            assert(out@ =~= raw@.subrange(3, end as int) + quotes(k as nat));
        }
    }
    proof {
        assert(out@ =~= spec_decode_multiline_string(raw@));
    }
    out
}

/// Whether `raw` opens with three double quotes.
pub open spec fn spec_is_triple_quoted(raw: Seq<char>) -> bool {
    raw.len() >= 3 && raw[0] == '"' && raw[1] == '"' && raw[2] == '"'
}

/// The text that a string literal stands for. A literal too short to slice its text out of
/// its quotes has none.
pub open spec fn spec_decode_literal(raw: Seq<char>) -> Result<Seq<char>, SError> {
    if spec_is_triple_quoted(raw) {
        if 3 + spec_trailing_quotes(raw) <= raw.len() {
            Ok(spec_decode_multiline_string(raw))
        } else {
            Err(decode_error(ErrorKind::UnsliceableLiteral))
        }
    } else if raw.len() >= 2 {
        spec_decode_quoted_string(raw)
    } else {
        Err(decode_error(ErrorKind::UnsliceableLiteral))
    }
}

pub fn decode_literal(raw: &Vec<char>) -> (res: Result<Vec<char>, ParseError>)
    ensures
        match spec_decode_literal(raw@) {
            Ok(v) => res matches Ok(r) && r@ == v,
            Err(e) => res matches Err(r) && r@ == e,
        },
{
    if raw.len() >= 3 && raw[0] == '"' && raw[1] == '"' && raw[2] == '"' {
        let t = count_trailing_quotes(raw);
        if t <= raw.len() - 3 {
            Ok(decode_multiline_string(raw))
        } else {
            Err(ParseError::with_position(ErrorKind::UnsliceableLiteral, 1, 1))
        }
    } else if raw.len() >= 2 {
        decode_quoted_string(raw)
    } else {
        Err(ParseError::with_position(ErrorKind::UnsliceableLiteral, 1, 1))
    }
}

impl StringLiteral {
    /// The text that the literal stands for.
    pub fn decode(&self) -> (res: Result<Vec<char>, ParseError>)
        ensures
            match spec_decode_literal(self.raw@) {
                Ok(v) => res matches Ok(r) && r@ == v,
                Err(e) => res matches Err(r) && r@ == e,
            },
    {
        decode_literal(&self.raw)
    }
}

} // verus!
