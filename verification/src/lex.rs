//! Tokens: numbers, unquoted text, string literals, keywords, paths and substitutions.
use vstd::prelude::*;
use crate::ast::{path_view, SSubstitution, StringLiteral, Substitution};
use crate::chars::{
    is_ascii_digit, is_ascii_hexdigit, is_control, is_forbidden_unquoted_char,
    spec_is_ascii_digit, spec_is_ascii_hexdigit, spec_is_control, spec_is_forbidden_unquoted_char,
};
use crate::error::{spec_error_at, ErrorKind, ParseError, SError, Token, spec_token_text};
use crate::scan::{
    at_newline, boundary_after, inline_ws_end, lemma_inline_ws_end, peek, starts_at,
    starts_comment, Parser,
};
use crate::strings::spec_decode_literal;
use crate::text::push_chars;

verus! {

/// What a parsing step yields: a value and the position after it, or an error.
pub type PResult<T> = Result<(T, int), SError>;

/// Whether an executable result agrees with the specified one: the same value and end
/// position, or the same error.
pub open spec fn agrees<T: View>(res: Result<T, ParseError>, pos: int, spec: PResult<T::V>) -> bool {
    match spec {
        Ok((v, q)) => res matches Ok(r) && r@ == v && pos == q,
        Err(e) => res matches Err(r) && r@ == e,
    }
}

/// How a path is read: as a field key, or inside a substitution.
#[derive(Clone, Copy, PartialEq, Eq, Structural)]
pub enum PathMode {
    FieldKey,
    Substitution,
}

/// The keywords that stand as values.
#[derive(Clone, Copy, PartialEq, Eq, Structural)]
pub enum KeywordAtom {
    True,
    False,
    Null,
    Yes,
    No,
    On,
    Off,
}

pub open spec fn spec_keyword_text(k: KeywordAtom) -> Seq<char> {
    match k {
        KeywordAtom::True => "true"@,
        KeywordAtom::False => "false"@,
        KeywordAtom::Null => "null"@,
        KeywordAtom::Yes => "yes"@,
        KeywordAtom::No => "no"@,
        KeywordAtom::On => "on"@,
        KeywordAtom::Off => "off"@,
    }
}

pub fn keyword_text(k: KeywordAtom) -> (res: &'static str)
    ensures
        res@ == spec_keyword_text(k),
{
    match k {
        KeywordAtom::True => "true",
        KeywordAtom::False => "false",
        KeywordAtom::Null => "null",
        KeywordAtom::Yes => "yes",
        KeywordAtom::No => "no",
        KeywordAtom::On => "on",
        KeywordAtom::Off => "off",
    }
}

pub proof fn lemma_keyword_text_len(k: KeywordAtom)
    ensures
        2 <= spec_keyword_text(k).len() <= 5,
{
    reveal_strlit("true");
    reveal_strlit("false");
    reveal_strlit("null");
    reveal_strlit("yes");
    reveal_strlit("no");
    reveal_strlit("on");
    reveal_strlit("off");
}

/// The first keyword of `true`, `false`, `null`, `yes`, `no`, `on`, `off` that occurs at `p`.
/// No boundary is required after it.
pub open spec fn match_keyword_atom(s: Seq<char>, p: int) -> Option<KeywordAtom> {
    if starts_at(s, p, "true"@) {
        Some(KeywordAtom::True)
    } else if starts_at(s, p, "false"@) {
        Some(KeywordAtom::False)
    } else if starts_at(s, p, "null"@) {
        Some(KeywordAtom::Null)
    } else if starts_at(s, p, "yes"@) {
        Some(KeywordAtom::Yes)
    } else if starts_at(s, p, "no"@) {
        Some(KeywordAtom::No)
    } else if starts_at(s, p, "on"@) {
        Some(KeywordAtom::On)
    } else if starts_at(s, p, "off"@) {
        Some(KeywordAtom::Off)
    } else {
        None
    }
}

/// The end of the run of ASCII digits at `p`.
pub open spec fn digits_end(s: Seq<char>, p: int) -> int
    decreases s.len() - p,
{
    if 0 <= p < s.len() && spec_is_ascii_digit(s[p]) {
        digits_end(s, p + 1)
    } else {
        p
    }
}

pub proof fn lemma_digits_end(s: Seq<char>, p: int)
    requires
        0 <= p <= s.len(),
    ensures
        p <= digits_end(s, p) <= s.len(),
    decreases s.len() - p,
{
    if 0 <= p < s.len() && spec_is_ascii_digit(s[p]) {
        lemma_digits_end(s, p + 1);
    }
}

pub open spec fn is_digit_at(s: Seq<char>, p: int) -> bool {
    peek(s, p) matches Some(c) && spec_is_ascii_digit(c)
}

/// A number at `p`: an optional `-`, then `0` or digits that do not start with `0`, then
/// (unless `stop_at_dot`) a `.` and digits, then an exponent if digits follow `e`/`E` and an
/// optional sign. `None` where no digit follows the optional `-`.
pub open spec fn try_parse_number(s: Seq<char>, p: int, stop_at_dot: bool) -> Option<(Seq<char>, int)> {
    let a = if peek(s, p) == Some('-') { p + 1 } else { p };
    if !is_digit_at(s, a) {
        None
    } else {
        let b = if peek(s, a) == Some('0') { a + 1 } else { digits_end(s, a + 1) };
        let c = if !stop_at_dot && peek(s, b) == Some('.') && is_digit_at(s, b + 1) {
            digits_end(s, b + 1)
        } else {
            b
        };
        let d = if peek(s, c) == Some('e') || peek(s, c) == Some('E') {
            let e0 = if peek(s, c + 1) == Some('+') || peek(s, c + 1) == Some('-') {
                c + 2
            } else {
                c + 1
            };
            let e1 = digits_end(s, e0);
            if e1 == e0 { c } else { e1 }
        } else {
            c
        };
        Some((s.subrange(p, d), d))
    }
}

/// The end of the unquoted text at `p`.
pub open spec fn unquoted_end(s: Seq<char>, p: int, stop_at_dot: bool) -> int
    decreases s.len() - p,
{
    if 0 <= p < s.len() && !starts_comment(s, p) && !spec_is_forbidden_unquoted_char(s[p], stop_at_dot) {
        unquoted_end(s, p + 1, stop_at_dot)
    } else {
        p
    }
}

pub proof fn lemma_unquoted_end(s: Seq<char>, p: int, stop_at_dot: bool)
    requires
        0 <= p <= s.len(),
    ensures
        p <= unquoted_end(s, p, stop_at_dot) <= s.len(),
    decreases s.len() - p,
{
    if 0 <= p < s.len() && !starts_comment(s, p) && !spec_is_forbidden_unquoted_char(s[p], stop_at_dot) {
        lemma_unquoted_end(s, p + 1, stop_at_dot);
    }
}

pub open spec fn parse_unquoted(s: Seq<char>, p: int, stop_at_dot: bool) -> PResult<Seq<char>> {
    let end = unquoted_end(s, p, stop_at_dot);
    if end == p {
        Err(spec_error_at(s, p, ErrorKind::ExpectedUnquoted))
    } else {
        Ok((s.subrange(p, end), end))
    }
}

/// The end of the run of at most `n` hexadecimal digits at `q`.
pub open spec fn hex_run_end(s: Seq<char>, q: int, n: nat) -> int
    decreases n,
{
    if n == 0 {
        q
    } else if peek(s, q) matches Some(c) && spec_is_ascii_hexdigit(c) {
        hex_run_end(s, q + 1, (n - 1) as nat)
    } else {
        q
    }
}

pub proof fn lemma_hex_run_end(s: Seq<char>, q: int, n: nat)
    requires
        0 <= q <= s.len(),
    ensures
        q <= hex_run_end(s, q, n) <= q + n,
        hex_run_end(s, q, n) <= s.len(),
    decreases n,
{
    if n > 0 && (peek(s, q) matches Some(c) && spec_is_ascii_hexdigit(c)) {
        lemma_hex_run_end(s, q + 1, (n - 1) as nat);
    }
}

/// The rest of a quoted string whose opening quote is at `start`, from `q` on.
pub open spec fn quoted_body(s: Seq<char>, start: int, q: int) -> PResult<Seq<char>>
    decreases s.len() - q,
{
    if q < 0 || q >= s.len() {
        Err(spec_error_at(s, q, ErrorKind::UnterminatedString))
    } else if s[q] == '"' {
        Ok((s.subrange(start, q + 1), q + 1))
    } else if s[q] == '\\' {
        let q1 = q + 1;
        match peek(s, q1) {
            Some(e) => if e == '"' || e == '\\' || e == '/' || e == 'b' || e == 'f' || e == 'n'
                || e == 'r' || e == 't' {
                quoted_body(s, start, q1 + 1)
            } else if e == 'u' {
                let h = hex_run_end(s, q1 + 1, 4);
                if h == q1 + 5 {
                    proof {
                        lemma_hex_run_end(s, q1 + 1, 4);
                    }
                    quoted_body(s, start, q1 + 5)
                } else {
                    Err(spec_error_at(s, h, ErrorKind::ExpectedHexDigits))
                }
            } else {
                Err(spec_error_at(s, q1, ErrorKind::InvalidEscapeInString))
            },
            None => Err(spec_error_at(s, q1, ErrorKind::InvalidEscapeInString)),
        }
    } else if spec_is_control(s[q]) {
        Err(spec_error_at(s, q, ErrorKind::ControlCharacterInString))
    } else {
        quoted_body(s, start, q + 1)
    }
}

/// A quoted string at `p`; its value is the raw text, quotes included.
pub open spec fn parse_quoted_string(s: Seq<char>, p: int) -> PResult<Seq<char>> {
    if peek(s, p) != Some('"') {
        Err(spec_error_at(s, p, ErrorKind::ExpectedChar('"')))
    } else {
        quoted_body(s, p, p + 1)
    }
}

/// The number of consecutive double quotes at `q`.
pub open spec fn quote_run(s: Seq<char>, q: int) -> nat
    decreases s.len() - q,
{
    if 0 <= q < s.len() && s[q] == '"' {
        1 + quote_run(s, q + 1)
    } else {
        0
    }
}

pub proof fn lemma_quote_run(s: Seq<char>, q: int)
    requires
        0 <= q <= s.len(),
    ensures
        q + quote_run(s, q) <= s.len(),
    decreases s.len() - q,
{
    if 0 <= q < s.len() && s[q] == '"' {
        lemma_quote_run(s, q + 1);
    }
}

/// The rest of a triple-quoted string that opened at `start`, from `q` on: it ends with the
/// first run of three or more quotes, which it takes whole.
pub open spec fn multiline_body(s: Seq<char>, start: int, q: int) -> PResult<Seq<char>>
    decreases s.len() - q,
{
    if q < 0 || q >= s.len() {
        Err(spec_error_at(s, q, ErrorKind::UnterminatedMultilineString))
    } else if s[q] == '"' {
        let run = quote_run(s, q);
        proof {
            lemma_quote_run(s, q);
            assert(run >= 1);
        }
        if run >= 3 {
            Ok((s.subrange(start, q + run), q + run))
        } else {
            multiline_body(s, start, q + run)
        }
    } else {
        multiline_body(s, start, q + 1)
    }
}

pub open spec fn parse_multiline_string(s: Seq<char>, p: int) -> PResult<Seq<char>> {
    if !starts_at(s, p, spec_token_text(Token::TripleQuote)) {
        Err(spec_error_at(s, p, ErrorKind::ExpectedToken(Token::TripleQuote)))
    } else {
        multiline_body(s, p, p + 3)
    }
}

/// A string literal at `p`, triple-quoted where `"""` opens it; its value is the raw text.
pub open spec fn parse_string_literal(s: Seq<char>, p: int) -> PResult<Seq<char>> {
    if starts_at(s, p, "\"\"\""@) {
        parse_multiline_string(s, p)
    } else {
        parse_quoted_string(s, p)
    }
}

pub open spec fn can_start_unquoted(s: Seq<char>, p: int, stop_at_dot: bool) -> bool {
    peek(s, p) matches Some(c) && !spec_is_forbidden_unquoted_char(c, stop_at_dot)
        && !starts_comment(s, p)
}

pub open spec fn can_start_scalar_token(s: Seq<char>, p: int, stop_at_dot: bool, allow_quoted: bool) -> bool {
    ||| (allow_quoted && peek(s, p) == Some('"'))
    ||| match_keyword_atom(s, p) is Some
    ||| (peek(s, p) matches Some(c) && (spec_is_ascii_digit(c) || c == '-'))
    ||| can_start_unquoted(s, p, stop_at_dot)
}

pub open spec fn can_start_path_token(s: Seq<char>, p: int) -> bool {
    can_start_scalar_token(s, p, true, true)
}

pub open spec fn can_start_simple_atom(s: Seq<char>, p: int) -> bool {
    can_start_scalar_token(s, p, false, false)
}

pub open spec fn is_path_terminator(s: Seq<char>, p: int, mode: PathMode) -> bool {
    match mode {
        PathMode::FieldKey => starts_at(s, p, "+="@) || starts_at(s, p, "="@) || starts_at(s, p, ":"@)
            || peek(s, p) == Some('{'),
        PathMode::Substitution => starts_at(s, p, "[]"@) || peek(s, p) == Some('}'),
    }
}

/// One token of a path: the text of a string literal, a keyword, a number or unquoted text.
pub open spec fn parse_path_token(s: Seq<char>, p: int) -> PResult<Seq<char>> {
    if peek(s, p) == Some('"') {
        match parse_string_literal(s, p) {
            Err(e) => Err(e),
            Ok((raw, q)) => match spec_decode_literal(raw) {
                Err(e) => Err(e),
                Ok(text) => Ok((text, q)),
            },
        }
    } else if match_keyword_atom(s, p) is Some {
        let k = match_keyword_atom(s, p)->0;
        Ok((spec_keyword_text(k), p + spec_keyword_text(k).len()))
    } else if try_parse_number(s, p, true) is Some {
        let (n, q) = try_parse_number(s, p, true)->0;
        Ok((n, q))
    } else {
        parse_unquoted(s, p, true)
    }
}

/// The rest of a path segment from `q`, after `acc` was read: tokens separated by inline
/// whitespace, which the segment keeps.
pub open spec fn path_segment_rest(s: Seq<char>, mode: PathMode, q: int, acc: Seq<char>) -> PResult<Seq<char>>
    decreases s.len() - q,
{
    match parse_path_token(s, q) {
        Err(e) => Err(e),
        Ok((token, q1)) => {
            let acc1 = acc + token;
            let q2 = inline_ws_end(s, q1);
            if peek(s, q2) == Some('.') || starts_comment(s, q2) || at_newline(s, q2)
                || is_path_terminator(s, q2, mode) {
                Ok((acc1, q2))
            } else if can_start_path_token(s, q2) {
                if q < q2 <= s.len() {
                    path_segment_rest(s, mode, q2, acc1 + s.subrange(q1, q2))
                } else {
                    Err(spec_error_at(s, q2, ErrorKind::ExpectedPath))
                }
            } else {
                Ok((acc1, q2))
            }
        },
    }
}

pub open spec fn parse_path_segment(s: Seq<char>, p: int, mode: PathMode) -> PResult<Seq<char>> {
    if !can_start_path_token(s, p) {
        Err(spec_error_at(s, p, ErrorKind::ExpectedPath))
    } else {
        path_segment_rest(s, mode, p, Seq::empty())
    }
}

/// The rest of a path from `q`, after the segments `acc`.
pub open spec fn path_rest(s: Seq<char>, mode: PathMode, q: int, acc: Seq<Seq<char>>) -> PResult<Seq<Seq<char>>>
    decreases s.len() - q,
{
    let q1 = inline_ws_end(s, q);
    if peek(s, q1) != Some('.') {
        Ok((acc, q1))
    } else {
        let q2 = inline_ws_end(s, q1 + 1);
        match parse_path_segment(s, q2, mode) {
            Err(e) => Err(e),
            Ok((segment, q3)) => if q < q3 <= s.len() {
                path_rest(s, mode, q3, acc.push(segment))
            } else {
                Err(spec_error_at(s, q3, ErrorKind::ExpectedPath))
            },
        }
    }
}

/// A path: segments separated by `.`, with inline whitespace around the dots.
pub open spec fn parse_path(s: Seq<char>, p: int, mode: PathMode) -> PResult<Seq<Seq<char>>> {
    match parse_path_segment(s, p, mode) {
        Err(e) => Err(e),
        Ok((segment, q)) => path_rest(s, mode, q, seq![segment]),
    }
}

/// A substitution: `${`, an optional `?`, a path, an optional `[]`, and `}`.
pub open spec fn parse_substitution(s: Seq<char>, p: int) -> PResult<SSubstitution> {
    if !starts_at(s, p, spec_token_text(Token::SubstitutionOpen)) {
        Err(spec_error_at(s, p, ErrorKind::ExpectedToken(Token::SubstitutionOpen)))
    } else {
        let q = p + 2;
        let optional = peek(s, q) == Some('?');
        let q0 = inline_ws_end(s, if optional { q + 1 } else { q });
        match parse_path(s, q0, PathMode::Substitution) {
            Err(e) => Err(e),
            Ok((path, q1)) => {
                let q2 = inline_ws_end(s, q1);
                let list_hint = starts_at(s, q2, "[]"@);
                let q4 = inline_ws_end(s, if list_hint { q2 + 2 } else { q2 });
                if peek(s, q4) == Some('}') {
                    Ok((SSubstitution { optional, path, list_hint }, q4 + 1))
                } else {
                    Err(spec_error_at(s, q4, ErrorKind::ExpectedChar('}')))
                }
            },
        }
    }
}

} // verus!

verus! {

impl Parser {
    pub fn match_keyword_atom(&self) -> (res: Option<KeywordAtom>)
        requires
            self.wf(),
        ensures
            res == match_keyword_atom(self.s(), self.p()),
    {
        if self.starts_with("true") {
            Some(KeywordAtom::True)
        } else if self.starts_with("false") {
            Some(KeywordAtom::False)
        } else if self.starts_with("null") {
            Some(KeywordAtom::Null)
        } else if self.starts_with("yes") {
            Some(KeywordAtom::Yes)
        } else if self.starts_with("no") {
            Some(KeywordAtom::No)
        } else if self.starts_with("on") {
            Some(KeywordAtom::On)
        } else if self.starts_with("off") {
            Some(KeywordAtom::Off)
        } else {
            None
        }
    }

    fn consume_digits(&mut self)
        requires
            old(self).wf(),
        ensures
            final(self).wf(),
            final(self).input@ == old(self).input@,
            final(self).p() == digits_end(old(self).s(), old(self).p()),
    {
        let ghost s = self.s();
        let ghost start = self.p();
        while self.pos < self.input.len() && is_ascii_digit(self.input[self.pos])
            invariant
                self.wf(),
                self.input@ == s,
                digits_end(s, start) == digits_end(s, self.p()),
            decreases s.len() - self.pos,
        {
            self.pos = self.pos + 1;
        }
    }

    fn is_digit_here(&self, offset: usize) -> (res: bool)
        requires
            self.wf(),
        ensures
            res == is_digit_at(self.s(), self.p() + offset),
    {
        match self.peek_nth_char(offset) {
            Some(ch) => is_ascii_digit(ch),
            None => false,
        }
    }

    /// Reads a number if one starts here; otherwise leaves the position unchanged.
    pub fn try_parse_number(&mut self, stop_at_dot: bool) -> (res: Option<Vec<char>>)
        requires
            old(self).wf(),
        ensures
            final(self).wf(),
            final(self).input@ == old(self).input@,
            match try_parse_number(old(self).s(), old(self).p(), stop_at_dot) {
                None => res is None && final(self).p() == old(self).p(),
                Some((n, q)) => res matches Some(r) && r@ == n && final(self).p() == q && q
                    > old(self).p(),
            },
    {
        let ghost s = self.s();
        let start = self.pos;
        if self.peek_char() == Some('-') {
            self.pos = self.pos + 1;
        }
        let ghost a = self.p();
        if !self.is_digit_here(0) {
            self.pos = start;
            return None;
        }
        if self.peek_char() == Some('0') {
            self.pos = self.pos + 1;
        } else {
            self.pos = self.pos + 1;
            proof {
                lemma_digits_end(s, self.p());
            }
            self.consume_digits();
        }
        let ghost b = self.p();
        assert(b == (if peek(s, a) == Some('0') { a + 1 } else { digits_end(s, a + 1) }));
        assert(start < b <= s.len());
        if !stop_at_dot && self.peek_char() == Some('.') && self.is_digit_here(1) {
            self.pos = self.pos + 1;
            proof {
                lemma_digits_end(s, self.p());
            }
            self.consume_digits();
        }
        let ghost c = self.p();
        assert(c == (if !stop_at_dot && peek(s, b) == Some('.') && is_digit_at(s, b + 1) {
            digits_end(s, b + 1)
        } else {
            b
        }));
        assert(start < c <= s.len());
        if self.peek_char() == Some('e') || self.peek_char() == Some('E') {
            let exponent_mark = self.pos;
            self.pos = self.pos + 1;
            if self.peek_char() == Some('+') || self.peek_char() == Some('-') {
                self.pos = self.pos + 1;
            }
            let exponent_start = self.pos;
            proof {
                lemma_digits_end(s, self.p());
            }
            self.consume_digits();
            if exponent_start == self.pos {
                self.pos = exponent_mark;
            }
        }
        assert(start < self.pos <= s.len());
        Some(self.text_between(start, self.pos))
    }

    /// Reads unquoted text; it must not be empty.
    pub fn parse_unquoted(&mut self, stop_at_dot: bool) -> (res: Result<Vec<char>, ParseError>)
        requires
            old(self).wf(),
        ensures
            final(self).wf(),
            final(self).input@ == old(self).input@,
            agrees(res, final(self).p(), parse_unquoted(old(self).s(), old(self).p(), stop_at_dot)),
            res is Ok ==> final(self).p() > old(self).p(),
    {
        let ghost s = self.s();
        let start = self.pos;
        proof {
            lemma_unquoted_end(s, start as int, stop_at_dot);
        }
        while self.pos < self.input.len() && !self.starts_comment()
            && !is_forbidden_unquoted_char(self.input[self.pos], stop_at_dot)
            invariant
                self.wf(),
                self.input@ == s,
                start <= self.pos,
                unquoted_end(s, start as int, stop_at_dot) == unquoted_end(s, self.p(), stop_at_dot),
            decreases s.len() - self.pos,
        {
            self.pos = self.pos + 1;
        }
        if start == self.pos {
            return Err(self.error(ErrorKind::ExpectedUnquoted));
        }
        Ok(self.text_between(start, self.pos))
    }

    /// Reads a quoted string; its value is the raw text, quotes included.
    pub fn parse_quoted_string(&mut self) -> (res: Result<StringLiteral, ParseError>)
        requires
            old(self).wf(),
        ensures
            final(self).wf(),
            final(self).input@ == old(self).input@,
            agrees(res, final(self).p(), parse_quoted_string(old(self).s(), old(self).p())),
            res is Ok ==> final(self).p() > old(self).p(),
    {
        let ghost s = self.s();
        let start = self.pos;
        self.expect_char('"')?;
        loop
            invariant
                self.wf(),
                self.input@ == s,
                start < self.pos,
                s == old(self).input@,
                start == old(self).pos,
                peek(s, start as int) == Some('"'),
                quoted_body(s, start as int, self.p()) == parse_quoted_string(s, start as int),
            decreases s.len() - self.pos,
        {
            if self.pos >= self.input.len() {
                return Err(self.error(ErrorKind::UnterminatedString));
            }
            let ch = self.input[self.pos];
            if ch == '"' {
                self.pos = self.pos + 1;
                return Ok(StringLiteral { raw: self.text_between(start, self.pos) });
            } else if ch == '\\' {
                self.pos = self.pos + 1;
                match self.peek_char() {
                    Some(e) => {
                        if e == '"' || e == '\\' || e == '/' || e == 'b' || e == 'f' || e == 'n'
                            || e == 'r' || e == 't' {
                            self.pos = self.pos + 1;
                        } else if e == 'u' {
                            let ghost qb = self.p() - 1;
                            self.pos = self.pos + 1;
                            let ghost h0 = self.p();
                            let mut k: usize = 0;
                            while k < 4
                                invariant
                                    self.wf(),
                                    self.input@ == s,
                                    s == old(self).input@,
                                    start == old(self).pos,
                                    start < h0,
                                    h0 == qb + 2,
                                    s[qb] == '\\',
                                    peek(s, qb + 1) == Some('u'),
                                    quoted_body(s, start as int, qb) == parse_quoted_string(s, start as int),
                                    k <= 4,
                                    self.p() == h0 + k,
                                    hex_run_end(s, h0, 4) == hex_run_end(s, self.p(), (4 - k) as nat),
                                decreases 4 - k,
                            {
                                match self.peek_char() {
                                    Some(c) => {
                                        if is_ascii_hexdigit(c) {
                                            self.pos = self.pos + 1;
                                        } else {
                                            return Err(self.error(ErrorKind::ExpectedHexDigits));
                                        }
                                    },
                                    None => {
                                        return Err(self.error(ErrorKind::ExpectedHexDigits));
                                    },
                                }
                                k = k + 1;
                            }
                        } else {
                            return Err(self.error(ErrorKind::InvalidEscapeInString));
                        }
                    },
                    None => {
                        return Err(self.error(ErrorKind::InvalidEscapeInString));
                    },
                }
            } else if is_control(ch) {
                return Err(self.error(ErrorKind::ControlCharacterInString));
            } else {
                self.pos = self.pos + 1;
            }
        }
    }

    /// The number of consecutive double quotes from the current position.
    pub fn count_consecutive_quotes(&self) -> (res: usize)
        requires
            self.wf(),
        ensures
            res == quote_run(self.s(), self.p()),
            self.p() + res <= self.s().len(),
    {
        let ghost s = self.s();
        let mut i = self.pos;
        proof {
            lemma_quote_run(s, self.p());
        }
        while i < self.input.len() && self.input[i] == '"'
            invariant
                self.wf(),
                self.pos <= i <= s.len(),
                s == self.input@,
                quote_run(s, self.p()) == (i - self.pos) + quote_run(s, i as int),
            decreases s.len() - i,
        {
            i = i + 1;
        }
        i - self.pos
    }

    /// Reads a triple-quoted string; its value is the raw text, quotes included.
    pub fn parse_multiline_string(&mut self) -> (res: Result<StringLiteral, ParseError>)
        requires
            old(self).wf(),
        ensures
            final(self).wf(),
            final(self).input@ == old(self).input@,
            agrees(res, final(self).p(), parse_multiline_string(old(self).s(), old(self).p())),
            res is Ok ==> final(self).p() > old(self).p(),
    {
        let ghost s = self.s();
        let start = self.pos;
        self.expect_str(Token::TripleQuote)?;
        proof {
            reveal_strlit("\"\"\"");
        }
        loop
            invariant
                self.wf(),
                self.input@ == s,
                start < self.pos,
                s == old(self).input@,
                start == old(self).pos,
                starts_at(s, start as int, spec_token_text(Token::TripleQuote)),
                multiline_body(s, start as int, self.p()) == parse_multiline_string(s, start as int),
            decreases s.len() - self.pos,
        {
            if self.is_eof() {
                return Err(self.error(ErrorKind::UnterminatedMultilineString));
            }
            if self.input[self.pos] == '"' {
                let run = self.count_consecutive_quotes();
                if run >= 3 {
                    self.pos = self.pos + run;
                    return Ok(StringLiteral { raw: self.text_between(start, self.pos) });
                }
                self.pos = self.pos + run;
            } else {
                self.pos = self.pos + 1;
            }
        }
    }

    /// Reads a string literal, triple-quoted where `"""` opens it.
    pub fn parse_string_literal(&mut self) -> (res: Result<StringLiteral, ParseError>)
        requires
            old(self).wf(),
        ensures
            final(self).wf(),
            final(self).input@ == old(self).input@,
            agrees(res, final(self).p(), parse_string_literal(old(self).s(), old(self).p())),
            res is Ok ==> final(self).p() > old(self).p(),
    {
        if self.starts_with("\"\"\"") {
            self.parse_multiline_string()
        } else {
            self.parse_quoted_string()
        }
    }

    pub fn can_start_unquoted(&self, stop_at_dot: bool) -> (res: bool)
        requires
            self.wf(),
        ensures
            res == can_start_unquoted(self.s(), self.p(), stop_at_dot),
    {
        match self.peek_char() {
            Some(ch) => !is_forbidden_unquoted_char(ch, stop_at_dot) && !self.starts_comment(),
            None => false,
        }
    }

    pub fn can_start_scalar_token(&self, stop_at_dot: bool, allow_quoted: bool) -> (res: bool)
        requires
            self.wf(),
        ensures
            res == can_start_scalar_token(self.s(), self.p(), stop_at_dot, allow_quoted),
    {
        (allow_quoted && self.peek_char() == Some('"')) || self.match_keyword_atom().is_some()
            || match self.peek_char() {
            Some(ch) => is_ascii_digit(ch) || ch == '-',
            None => false,
        } || self.can_start_unquoted(stop_at_dot)
    }

    pub fn can_start_path_token(&self) -> (res: bool)
        requires
            self.wf(),
        ensures
            res == can_start_path_token(self.s(), self.p()),
    {
        self.can_start_scalar_token(true, true)
    }

    pub fn can_start_simple_atom(&self) -> (res: bool)
        requires
            self.wf(),
        ensures
            res == can_start_simple_atom(self.s(), self.p()),
    {
        self.can_start_scalar_token(false, false)
    }

    pub fn is_path_terminator(&self, mode: PathMode) -> (res: bool)
        requires
            self.wf(),
        ensures
            res == is_path_terminator(self.s(), self.p(), mode),
    {
        match mode {
            PathMode::FieldKey => self.starts_with("+=") || self.starts_with("=")
                || self.starts_with(":") || self.peek_char() == Some('{'),
            PathMode::Substitution => self.starts_with("[]") || self.peek_char() == Some('}'),
        }
    }

    /// Reads one token of a path.
    pub fn parse_path_token(&mut self) -> (res: Result<Vec<char>, ParseError>)
        requires
            old(self).wf(),
        ensures
            final(self).wf(),
            final(self).input@ == old(self).input@,
            agrees(res, final(self).p(), parse_path_token(old(self).s(), old(self).p())),
            res is Ok ==> final(self).p() > old(self).p(),
    {
        if self.peek_char() == Some('"') {
            let literal = self.parse_string_literal()?;
            return literal.decode();
        }
        if let Some(keyword) = self.match_keyword_atom() {
            let text = keyword_text(keyword);
            proof {
                lemma_keyword_text_len(keyword);
            }
            let n = text.unicode_len();
            self.pos = self.pos + n;
            return Ok(crate::text::chars_of(text));
        }
        if let Some(number) = self.try_parse_number(true) {
            return Ok(number);
        }
        self.parse_unquoted(true)
    }

    /// Reads one segment of a path.
    pub fn parse_path_segment(&mut self, mode: PathMode) -> (res: Result<Vec<char>, ParseError>)
        requires
            old(self).wf(),
        ensures
            final(self).wf(),
            final(self).input@ == old(self).input@,
            agrees(res, final(self).p(), parse_path_segment(old(self).s(), old(self).p(), mode)),
            res is Ok ==> final(self).p() > old(self).p(),
    {
        let ghost s = self.s();
        let ghost start = self.p();
        if !self.can_start_path_token() {
            return Err(self.error(ErrorKind::ExpectedPath));
        }
        let mut segment: Vec<char> = Vec::new();
        loop
            invariant
                self.wf(),
                self.input@ == s,
                start <= self.p(),
                s == old(self).input@,
                start == old(self).p(),
                path_segment_rest(s, mode, self.p(), segment@) == parse_path_segment(s, start, mode),
            decreases s.len() - self.pos,
        {
            let ghost q = self.p();
            let token = self.parse_path_token()?;
            push_chars(&mut segment, &token);
            let whitespace = self.consume_inline_whitespace();
            if self.peek_char() == Some('.') || self.starts_comment() || self.at_newline()
                || self.is_path_terminator(mode) {
                return Ok(segment);
            }
            if self.can_start_path_token() {
                push_chars(&mut segment, &whitespace);
                continue;
            }
            return Ok(segment);
        }
    }

    /// Reads a path: segments separated by dots.
    pub fn parse_path(&mut self, mode: PathMode) -> (res: Result<Vec<Vec<char>>, ParseError>)
        requires
            old(self).wf(),
        ensures
            final(self).wf(),
            final(self).input@ == old(self).input@,
            match parse_path(old(self).s(), old(self).p(), mode) {
                Ok((path, q)) => res matches Ok(r) && path_view(r) == path && final(self).p() == q,
                Err(e) => res matches Err(r) && r@ == e,
            },
            res is Ok ==> final(self).p() > old(self).p(),
    {
        let ghost s = self.s();
        let ghost start = self.p();
        let first = self.parse_path_segment(mode)?;
        let mut path: Vec<Vec<char>> = Vec::new();
        path.push(first);
        proof {
            assert(path_view(path) =~= seq![path@[0]@]);
        }
        loop
            invariant
                self.wf(),
                self.input@ == s,
                start < self.p(),
                s == old(self).input@,
                start == old(self).p(),
                match parse_path(s, start, mode) {
                    Ok((v, q)) => path_rest(s, mode, self.p(), path_view(path)) == Ok::<_, SError>((v, q)),
                    Err(e) => path_rest(s, mode, self.p(), path_view(path)) == Err::<(Seq<Seq<char>>, int), _>(e),
                },
            decreases s.len() - self.pos,
        {
            let ghost q = self.p();
            let _ = self.consume_inline_whitespace();
            proof {
                lemma_inline_ws_end(s, q);
            }
            if self.peek_char() != Some('.') {
                return Ok(path);
            }
            self.pos = self.pos + 1;
            let _ = self.consume_inline_whitespace();
            let ghost q2 = self.p();
            let segment = self.parse_path_segment(mode)?;
            assert(q < self.p() <= s.len());
            let ghost before = path_view(path);
            path.push(segment);
            proof {
                assert(path_view(path) =~= before.push(segment@));
            }
        }
    }

    /// Reads a substitution `${...}`.
    pub fn parse_substitution(&mut self) -> (res: Result<Substitution, ParseError>)
        requires
            old(self).wf(),
        ensures
            final(self).wf(),
            final(self).input@ == old(self).input@,
            agrees(res, final(self).p(), parse_substitution(old(self).s(), old(self).p())),
            res is Ok ==> final(self).p() > old(self).p(),
    {
        proof {
            reveal_strlit("${");
        }
        self.expect_str(Token::SubstitutionOpen)?;
        let optional = if self.peek_char() == Some('?') {
            self.pos = self.pos + 1;
            true
        } else {
            false
        };
        let _ = self.consume_inline_whitespace();
        let path = self.parse_path(PathMode::Substitution)?;
        let _ = self.consume_inline_whitespace();
        let list_hint = if self.starts_with("[]") {
            proof {
                reveal_strlit("[]");
            }
            self.pos = self.pos + 2;
            true
        } else {
            false
        };
        let _ = self.consume_inline_whitespace();
        self.expect_char('}')?;
        Ok(Substitution { optional, path, list_hint })
    }
}

} // verus!
