//! The scanner: positions in the input, and the layout between tokens.
//!
//! A position is a character index into the input. Each scanning step is specified by a
//! function of the input `s` and the position `p` where it starts.
use vstd::prelude::*;
use crate::chars::{
    is_inline_whitespace, is_newline_char, is_whitespace, spec_is_inline_whitespace,
    spec_is_newline_char, spec_is_whitespace,
};
use crate::error::{spec_error_at, spec_token_text, token_text, ErrorKind, ParseError, SError, Token};
use crate::text::push_str;

verus! {

pub open spec fn peek(s: Seq<char>, p: int) -> Option<char> {
    if 0 <= p < s.len() { Some(s[p]) } else { None }
}

/// Whether `lit` occurs in `s` at `p`.
pub open spec fn starts_at(s: Seq<char>, p: int, lit: Seq<char>) -> bool {
    0 <= p && p + lit.len() <= s.len() && s.subrange(p, p + lit.len()) == lit
}

/// The length of the line break at `p`: two for `\r\n`, one for a lone `\r` or `\n`.
pub open spec fn newline_len(s: Seq<char>, p: int) -> Option<int> {
    if 0 <= p && p + 1 < s.len() && s[p] == '\r' && s[p + 1] == '\n' {
        Some(2)
    } else if 0 <= p < s.len() && spec_is_newline_char(s[p]) {
        Some(1)
    } else {
        None
    }
}

pub open spec fn at_newline(s: Seq<char>, p: int) -> bool {
    newline_len(s, p) is Some
}

/// A comment starts with `#` or `//`.
pub open spec fn starts_comment(s: Seq<char>, p: int) -> bool {
    peek(s, p) == Some('#') || (0 <= p && p + 1 < s.len() && s[p] == '/' && s[p + 1] == '/')
}

/// The end of the run of inline whitespace at `p`.
pub open spec fn inline_ws_end(s: Seq<char>, p: int) -> int
    decreases s.len() - p,
{
    if 0 <= p < s.len() && spec_is_inline_whitespace(s[p]) {
        inline_ws_end(s, p + 1)
    } else {
        p
    }
}

/// The position of the next line break at or after `p`, or the end of the input.
pub open spec fn line_end(s: Seq<char>, p: int) -> int
    decreases s.len() - p,
{
    if 0 <= p < s.len() && !spec_is_newline_char(s[p]) {
        line_end(s, p + 1)
    } else {
        p
    }
}

/// The end of the comment at `p` (which runs to the end of the line), or `p` itself.
pub open spec fn comment_end(s: Seq<char>, p: int) -> int {
    if peek(s, p) == Some('#') {
        line_end(s, p + 1)
    } else if 0 <= p && p + 1 < s.len() && s[p] == '/' && s[p + 1] == '/' {
        line_end(s, p + 2)
    } else {
        p
    }
}

/// The end of the whitespace and line breaks at `p`, and how many line breaks it holds.
pub open spec fn layout(s: Seq<char>, p: int) -> (int, nat)
    decreases s.len() - p,
{
    if 0 <= p < s.len() && spec_is_inline_whitespace(s[p]) {
        layout(s, p + 1)
    } else if newline_len(s, p) is Some {
        let (end, count) = layout(s, p + newline_len(s, p)->0);
        (end, count + 1)
    } else {
        (p, 0)
    }
}

/// The end of the whitespace, comments and line breaks at `p`.
pub open spec fn skip_layout_and_comments(s: Seq<char>, p: int) -> int
    decreases s.len() - p,
{
    if 0 <= p < s.len() && spec_is_inline_whitespace(s[p]) {
        skip_layout_and_comments(s, p + 1)
    } else if starts_comment(s, p) && 0 <= p < s.len() {
        proof {
            lemma_comment_end(s, p);
        }
        skip_layout_and_comments(s, comment_end(s, p))
    } else if newline_len(s, p) is Some {
        skip_layout_and_comments(s, p + newline_len(s, p)->0)
    } else {
        p
    }
}

/// Whether the keyword of length `len` at `p` ends at a token boundary.
pub open spec fn boundary_after(s: Seq<char>, p: int, len: int) -> bool {
    let q = p + len;
    if q >= s.len() || q < 0 {
        true
    } else {
        let next = s[q];
        spec_is_whitespace(next) || next == '.' || next == ':' || next == '=' || next == '+'
            || next == '{' || next == '[' || next == '(' || next == ')' || next == '}'
            || next == ',' || next == '#' || next == '"' || next == '/'
    }
}

pub proof fn lemma_inline_ws_end(s: Seq<char>, p: int)
    requires
        0 <= p <= s.len(),
    ensures
        p <= inline_ws_end(s, p) <= s.len(),
        forall|i: int| p <= i < inline_ws_end(s, p) ==> spec_is_inline_whitespace(#[trigger] s[i]),
        inline_ws_end(s, p) < s.len() ==> !spec_is_inline_whitespace(s[inline_ws_end(s, p)]),
    decreases s.len() - p,
{
    if 0 <= p < s.len() && spec_is_inline_whitespace(s[p]) {
        lemma_inline_ws_end(s, p + 1);
    }
}

pub proof fn lemma_line_end(s: Seq<char>, p: int)
    requires
        0 <= p <= s.len(),
    ensures
        p <= line_end(s, p) <= s.len(),
    decreases s.len() - p,
{
    if 0 <= p < s.len() && !spec_is_newline_char(s[p]) {
        lemma_line_end(s, p + 1);
    }
}

pub proof fn lemma_comment_end(s: Seq<char>, p: int)
    requires
        0 <= p <= s.len(),
    ensures
        p <= comment_end(s, p) <= s.len(),
        starts_comment(s, p) ==> p < comment_end(s, p),
{
    if peek(s, p) == Some('#') {
        lemma_line_end(s, p + 1);
    } else if 0 <= p && p + 1 < s.len() && s[p] == '/' && s[p + 1] == '/' {
        lemma_line_end(s, p + 2);
    }
}

pub proof fn lemma_layout(s: Seq<char>, p: int)
    requires
        0 <= p <= s.len(),
    ensures
        p <= layout(s, p).0 <= s.len(),
        layout(s, p).1 <= layout(s, p).0 - p,
    decreases s.len() - p,
{
    if 0 <= p < s.len() && spec_is_inline_whitespace(s[p]) {
        lemma_layout(s, p + 1);
    } else if newline_len(s, p) is Some {
        lemma_layout(s, p + newline_len(s, p)->0);
    }
}

pub proof fn lemma_skip_layout_and_comments(s: Seq<char>, p: int)
    requires
        0 <= p <= s.len(),
    ensures
        p <= skip_layout_and_comments(s, p) <= s.len(),
    decreases s.len() - p,
{
    if 0 <= p < s.len() && spec_is_inline_whitespace(s[p]) {
        lemma_skip_layout_and_comments(s, p + 1);
    } else if starts_comment(s, p) && 0 <= p < s.len() {
        lemma_comment_end(s, p);
        lemma_skip_layout_and_comments(s, comment_end(s, p));
    } else if newline_len(s, p) is Some {
        lemma_skip_layout_and_comments(s, p + newline_len(s, p)->0);
    }
}

/// A parser over the characters of one input.
pub struct Parser {
    pub input: Vec<char>,
    pub pos: usize,
}

impl Parser {
    /// The parser's position never leaves the input, and the input is shorter than `usize::MAX`.
    pub open spec fn wf(&self) -> bool {
        self.pos <= self.input@.len() < usize::MAX
    }

    pub open spec fn s(&self) -> Seq<char> {
        self.input@
    }

    pub open spec fn p(&self) -> int {
        self.pos as int
    }

    pub fn new(input: Vec<char>) -> (res: Parser)
        requires
            input@.len() < usize::MAX,
        ensures
            res.wf(),
            res.input@ == input@,
            res.pos == 0,
    {
        Parser { input, pos: 0 }
    }

    pub fn peek_char(&self) -> (res: Option<char>)
        requires
            self.wf(),
        ensures
            res == peek(self.s(), self.p()),
    {
        if self.pos < self.input.len() {
            Some(self.input[self.pos])
        } else {
            None
        }
    }

    pub fn peek_nth_char(&self, offset: usize) -> (res: Option<char>)
        requires
            self.wf(),
        ensures
            res == peek(self.s(), self.p() + offset),
    {
        if offset < self.input.len() - self.pos {
            Some(self.input[self.pos + offset])
        } else {
            None
        }
    }

    pub fn is_eof(&self) -> (res: bool)
        requires
            self.wf(),
        ensures
            res == (self.p() >= self.s().len()),
    {
        self.pos >= self.input.len()
    }

    pub fn starts_with(&self, lit: &str) -> (res: bool)
        requires
            self.wf(),
        ensures
            res == starts_at(self.s(), self.p(), lit@),
    {
        broadcast use vstd::string::group_string_axioms;
        let ghost s = self.s();
        let ghost p = self.p();
        let mut i: usize = 0;
        for c in it: lit.chars()
            invariant
                it.seq() == lit@,
                i == it.index(),
                self.pos <= self.input@.len() < usize::MAX,
                s == self.input@,
                p == self.pos,
                p + i <= s.len(),
                s.subrange(p, p + i) == lit@.take(i as int),
        {
            if self.pos + i >= self.input.len() || self.input[self.pos + i] != c {
                proof {
                    if p + lit@.len() <= s.len() && s.subrange(p, p + lit@.len()) == lit@ {
                        assert(s.subrange(p, p + lit@.len())[i as int] == s[p + i]);
                    }
                }
                return false;
            }
            i = i + 1;
            proof {
                assert(s.subrange(p, p + i) =~= lit@.take(i as int));
            }
        }
        proof {
            assert(lit@.take(lit@.len() as int) =~= lit@);
        }
        true
    }

    pub fn newline_len(&self) -> (res: Option<usize>)
        requires
            self.wf(),
        ensures
            match newline_len(self.s(), self.p()) {
                Some(n) => res == Some(n as usize),
                None => res is None,
            },
    {
        if self.input.len() - self.pos >= 2 && self.input[self.pos] == '\r'
            && self.input[self.pos + 1] == '\n' {
            Some(2)
        } else if self.pos < self.input.len() && is_newline_char(self.input[self.pos]) {
            Some(1)
        } else {
            None
        }
    }

    pub fn at_newline(&self) -> (res: bool)
        requires
            self.wf(),
        ensures
            res == at_newline(self.s(), self.p()),
    {
        self.newline_len().is_some()
    }

    pub fn consume_newline(&mut self) -> (res: bool)
        requires
            old(self).wf(),
        ensures
            final(self).wf(),
            final(self).input@ == old(self).input@,
            res == at_newline(old(self).s(), old(self).p()),
            final(self).p() == (if res {
                old(self).p() + newline_len(old(self).s(), old(self).p())->0
            } else {
                old(self).p()
            }),
    {
        match self.newline_len() {
            Some(len) => {
                self.pos = self.pos + len;
                true
            },
            None => false,
        }
    }

    pub fn starts_comment(&self) -> (res: bool)
        requires
            self.wf(),
        ensures
            res == starts_comment(self.s(), self.p()),
    {
        (self.pos < self.input.len() && self.input[self.pos] == '#') || (self.input.len()
            - self.pos >= 2 && self.input[self.pos] == '/' && self.input[self.pos + 1] == '/')
    }

    /// Consumes a run of inline whitespace, and returns it.
    pub fn consume_inline_whitespace(&mut self) -> (res: Vec<char>)
        requires
            old(self).wf(),
        ensures
            final(self).wf(),
            final(self).input@ == old(self).input@,
            final(self).p() == inline_ws_end(old(self).s(), old(self).p()),
            old(self).p() <= final(self).p(),
            res@ == old(self).s().subrange(old(self).p(), final(self).p()),
    {
        let start = self.pos;
        let ghost s = self.s();
        let mut out: Vec<char> = Vec::new();
        while self.pos < self.input.len() && is_inline_whitespace(self.input[self.pos])
            invariant
                self.wf(),
                self.input@ == s,
                start <= self.pos,
                inline_ws_end(s, start as int) == inline_ws_end(s, self.p()),
                out@ == s.subrange(start as int, self.p()),
            decreases s.len() - self.pos,
        {
            out.push(self.input[self.pos]);
            self.pos = self.pos + 1;
            proof {
                assert(out@ =~= s.subrange(start as int, self.p()));
            }
        }
        out
    }

    /// Skips the comment at the current position, up to the end of its line.
    pub fn skip_comment(&mut self)
        requires
            old(self).wf(),
        ensures
            final(self).wf(),
            final(self).input@ == old(self).input@,
            final(self).p() == comment_end(old(self).s(), old(self).p()),
    {
        let ghost s = self.s();
        if self.pos < self.input.len() && self.input[self.pos] == '#' {
            self.pos = self.pos + 1;
        } else if self.input.len() - self.pos >= 2 && self.input[self.pos] == '/'
            && self.input[self.pos + 1] == '/' {
            self.pos = self.pos + 2;
        } else {
            return;
        }
        let ghost from = self.p();
        while self.pos < self.input.len() && !is_newline_char(self.input[self.pos])
            invariant
                self.wf(),
                self.input@ == s,
                line_end(s, from) == line_end(s, self.p()),
            decreases s.len() - self.pos,
        {
            self.pos = self.pos + 1;
        }
    }

    /// Consumes the comment at the current position, and returns its text.
    pub fn consume_comment_text(&mut self) -> (res: Vec<char>)
        requires
            old(self).wf(),
        ensures
            final(self).wf(),
            final(self).input@ == old(self).input@,
            final(self).p() == comment_end(old(self).s(), old(self).p()),
            res@ == old(self).s().subrange(old(self).p(), final(self).p()),
    {
        let start = self.pos;
        self.skip_comment();
        proof {
            lemma_comment_end(self.s(), start as int);
        }
        let mut out: Vec<char> = Vec::new();
        let mut i = start;
        while i < self.pos
            invariant
                start <= i <= self.pos <= self.input@.len(),
                out@ == self.input@.subrange(start as int, i as int),
            decreases self.pos - i,
        {
            out.push(self.input[i]);
            i = i + 1;
            proof {
                assert(out@ =~= self.input@.subrange(start as int, i as int));
            }
        }
        out
    }

    /// Consumes whitespace and line breaks (not comments); returns how many line breaks.
    pub fn consume_layout_without_comments(&mut self) -> (res: usize)
        requires
            old(self).wf(),
        ensures
            final(self).wf(),
            final(self).input@ == old(self).input@,
            final(self).p() == layout(old(self).s(), old(self).p()).0,
            res as nat == layout(old(self).s(), old(self).p()).1,
            old(self).p() <= final(self).p(),
    {
        let ghost s = self.s();
        let ghost start = self.p();
        let mut count: usize = 0;
        proof {
            lemma_layout(s, start);
        }
        loop
            invariant
                self.wf(),
                self.input@ == s,
                start <= self.p(),
                layout(s, start).0 == layout(s, self.p()).0,
                layout(s, start).1 == count + layout(s, self.p()).1,
                count <= self.p() - start,
            ensures
                self.wf(),
                self.input@ == s,
                layout(s, start).0 == self.p(),
                layout(s, start).1 == count,
            decreases s.len() - self.pos,
        {
            proof {
                lemma_layout(s, self.p());
            }
            if self.pos < self.input.len() && is_inline_whitespace(self.input[self.pos]) {
                self.pos = self.pos + 1;
            } else if self.consume_newline() {
                count = count + 1;
            } else {
                break;
            }
        }
        count
    }

    pub fn skip_layout_without_comments(&mut self)
        requires
            old(self).wf(),
        ensures
            final(self).wf(),
            final(self).input@ == old(self).input@,
            final(self).p() == layout(old(self).s(), old(self).p()).0,
            old(self).p() <= final(self).p(),
    {
        self.consume_layout_without_comments();
    }

    /// Skips whitespace, comments and line breaks.
    pub fn skip_ws_comments_newlines(&mut self)
        requires
            old(self).wf(),
        ensures
            final(self).wf(),
            final(self).input@ == old(self).input@,
            final(self).p() == skip_layout_and_comments(old(self).s(), old(self).p()),
            old(self).p() <= final(self).p(),
    {
        let ghost s = self.s();
        let ghost start = self.p();
        proof {
            lemma_skip_layout_and_comments(s, start);
        }
        loop
            invariant
                self.wf(),
                self.input@ == s,
                skip_layout_and_comments(s, start) == skip_layout_and_comments(s, self.p()),
            ensures
                self.wf(),
                self.input@ == s,
                skip_layout_and_comments(s, start) == self.p(),
            decreases s.len() - self.pos,
        {
            if self.pos < self.input.len() && is_inline_whitespace(self.input[self.pos]) {
                self.pos = self.pos + 1;
            } else if self.pos < self.input.len() && self.starts_comment() {
                proof {
                    lemma_comment_end(s, self.p());
                }
                self.skip_comment();
            } else if self.consume_newline() {
            } else {
                break;
            }
        }
    }

    /// Consumes inline whitespace and then, where a comment or line break follows, all
    /// whitespace, comments and line breaks; returns whether anything was consumed.
    pub fn consume_ws_or_comment_separator(&mut self) -> (res: bool)
        requires
            old(self).wf(),
        ensures
            final(self).wf(),
            final(self).input@ == old(self).input@,
            final(self).p() == ws_or_comment_separator_end(old(self).s(), old(self).p()),
            res == (final(self).p() > old(self).p()),
    {
        let before = self.pos;
        let _ = self.consume_inline_whitespace();
        if self.starts_comment() || self.at_newline() {
            self.skip_ws_comments_newlines();
        }
        proof {
            lemma_inline_ws_end(self.s(), before as int);
            lemma_skip_layout_and_comments(self.s(), inline_ws_end(self.s(), before as int));
        }
        self.pos > before
    }

    /// Consumes `expected` if it comes next.
    pub fn expect_char(&mut self, expected: char) -> (res: Result<(), ParseError>)
        requires
            old(self).wf(),
        ensures
            final(self).wf(),
            final(self).input@ == old(self).input@,
            peek(old(self).s(), old(self).p()) == Some(expected) ==> res is Ok && final(self).p()
                == old(self).p() + 1,
            peek(old(self).s(), old(self).p()) != Some(expected) ==> (res matches Err(e) && e@
                == spec_error_at(old(self).s(), old(self).p(), ErrorKind::ExpectedChar(expected))),
    {
        if self.pos < self.input.len() && self.input[self.pos] == expected {
            self.pos = self.pos + 1;
            Ok(())
        } else {
            Err(self.error(ErrorKind::ExpectedChar(expected)))
        }
    }

    /// Consumes the keyword or symbol `token` if it comes next.
    pub fn expect_token(&mut self, token: Token) -> (res: Result<(), ParseError>)
        requires
            old(self).wf(),
        ensures
            final(self).wf(),
            final(self).input@ == old(self).input@,
            starts_at(old(self).s(), old(self).p(), spec_token_text(token)) ==> res is Ok
                && final(self).p() == old(self).p() + spec_token_text(token).len(),
            res is Ok ==> final(self).p() > old(self).p(),
            !starts_at(old(self).s(), old(self).p(), spec_token_text(token)) ==> (res matches Err(
                e,
            ) && e@ == spec_error_at(old(self).s(), old(self).p(), ErrorKind::ExpectedToken(token))),
    {
        let text = token_text(token);
        proof {
            lemma_token_text_len(token);
        }
        if self.starts_with(text) {
            let n = text.unicode_len();
            self.pos = self.pos + n;
            Ok(())
        } else {
            Err(self.error(ErrorKind::ExpectedToken(token)))
        }
    }

    /// Consumes the keyword `token` (`include`, `required`, ...) if it comes next.
    pub fn expect_keyword(&mut self, token: Token) -> (res: Result<(), ParseError>)
        requires
            old(self).wf(),
        ensures
            final(self).wf(),
            final(self).input@ == old(self).input@,
            starts_at(old(self).s(), old(self).p(), spec_token_text(token)) ==> res is Ok
                && final(self).p() == old(self).p() + spec_token_text(token).len(),
            res is Ok ==> final(self).p() > old(self).p(),
            !starts_at(old(self).s(), old(self).p(), spec_token_text(token)) ==> (res matches Err(
                e,
            ) && e@ == spec_error_at(old(self).s(), old(self).p(), ErrorKind::ExpectedToken(token))),
    {
        self.expect_token(token)
    }

    /// Consumes the symbol `token` (`${`, `"""`) if it comes next.
    pub fn expect_str(&mut self, token: Token) -> (res: Result<(), ParseError>)
        requires
            old(self).wf(),
        ensures
            final(self).wf(),
            final(self).input@ == old(self).input@,
            starts_at(old(self).s(), old(self).p(), spec_token_text(token)) ==> res is Ok
                && final(self).p() == old(self).p() + spec_token_text(token).len(),
            res is Ok ==> final(self).p() > old(self).p(),
            !starts_at(old(self).s(), old(self).p(), spec_token_text(token)) ==> (res matches Err(
                e,
            ) && e@ == spec_error_at(old(self).s(), old(self).p(), ErrorKind::ExpectedToken(token))),
    {
        self.expect_token(token)
    }

    /// Whether the keyword `token`, which starts here, ends at a token boundary.
    pub fn is_boundary_after_keyword(&self, token: Token) -> (res: bool)
        requires
            self.wf(),
        ensures
            res == boundary_after(self.s(), self.p(), spec_token_text(token).len() as int),
    {
        let n = token_text(token).unicode_len();
        if n >= self.input.len() - self.pos {
            return true;
        }
        let next = self.input[self.pos + n];
        is_whitespace(next) || next == '.' || next == ':' || next == '=' || next == '+' || next
            == '{' || next == '[' || next == '(' || next == ')' || next == '}' || next == ','
            || next == '#' || next == '"' || next == '/'
    }

    /// A copy of the input from `start` to `end`.
    pub fn text_between(&self, start: usize, end: usize) -> (res: Vec<char>)
        requires
            self.wf(),
            start <= end <= self.input@.len(),
        ensures
            res@ == self.s().subrange(start as int, end as int),
    {
        let mut out: Vec<char> = Vec::new();
        let mut i = start;
        while i < end
            invariant
                start <= i <= end <= self.input@.len(),
                out@ == self.input@.subrange(start as int, i as int),
            decreases end - i,
        {
            out.push(self.input[i]);
            i = i + 1;
            proof {
                assert(out@ =~= self.input@.subrange(start as int, i as int));
            }
        }
        out
    }

    /// The error of kind `kind` at the current position.
    pub fn error(&self, kind: ErrorKind) -> (res: ParseError)
        requires
            self.wf(),
        ensures
            res@ == spec_error_at(self.s(), self.p(), kind),
    {
        ParseError::new(self.input.as_slice(), self.pos, kind)
    }
}

pub proof fn lemma_token_text_len(t: Token)
    ensures
        2 <= spec_token_text(t).len() <= 9,
{
    reveal_strlit("include");
    reveal_strlit("required");
    reveal_strlit("file");
    reveal_strlit("url");
    reveal_strlit("classpath");
    reveal_strlit("${");
    reveal_strlit("\"\"\"");
}

/// Where `consume_ws_or_comment_separator` stops.
pub open spec fn ws_or_comment_separator_end(s: Seq<char>, p: int) -> int {
    let q = inline_ws_end(s, p);
    if starts_comment(s, q) || at_newline(s, q) {
        skip_layout_and_comments(s, q)
    } else {
        q
    }
}

} // verus!
