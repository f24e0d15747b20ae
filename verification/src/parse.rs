//! The parser: reads a document into its syntax tree, as the grammar specifies.
use vstd::prelude::*;
use crate::ast::{
    ArrayItem, ArrayValue, Atom, ConcatItem, ConcatKind, Document, Entry, Field, FieldOp, Include,
    IncludeStmt, ObjectValue, Root, SConcatItem, SPart, StandaloneComment, StringLiteral, TrailingComment,
    Value, ValuePart,
};
use crate::error::{spec_error_at, spec_token_text, ErrorKind, ParseError, SError, Token};
use crate::grammar::{
    array_loop, finish_array, finish_object, object_loop, parse_array, parse_braced_object,
    parse_document, parse_entry, parse_field, parse_include, parse_include_function,
    parse_include_target, parse_root_object, parse_value, parse_value_part, starts_keyword,
    attach_last, body_separator, can_start_value_part, classify_part, collect_comments,
    concat_items_valid, finish_value, inline_comment_suffix, is_object_end, is_value_terminator,
    lemma_collect_comments, parse_simple_atom, starts_include_statement, value_rest, with_suffix,
    BodyItem, EntrySeparator, SeparatorState,
};
use crate::lex::{agrees, keyword_text, lemma_keyword_text_len, KeywordAtom};
use crate::scan::{
    comment_end, inline_ws_end, layout, lemma_comment_end, lemma_inline_ws_end, lemma_layout,
    newline_len, peek, starts_comment, Parser,
};
use crate::ast::{SDocument, SInclude};
use crate::text::{chars_of, contains_newline};
use crate::lex::PathMode;

verus! {

/// The views of the elements of a sequence.
pub open spec fn views<T: View>(v: Seq<T>) -> Seq<T::V> {
    Seq::new(v.len(), |i: int| v[i]@)
}

pub proof fn lemma_views_push<T: View>(v: Seq<T>, x: T)
    ensures
        views(v.push(x)) == views(v).push(x@),
{
    assert(views(v.push(x)) =~= views(v).push(x@));
}

/// Attaches a trailing comment to the last item.
fn attach_to_last<T: BodyItem>(items: &mut Vec<T>, comment: TrailingComment)
    requires
        old(items)@.len() > 0,
    ensures
        views(final(items)@) == attach_last::<T>(views(old(items)@), comment@),
        final(items)@.len() == old(items)@.len(),
{
    let ghost before = items@;
    let mut last = items.pop().unwrap();
    last.attach_trailing_comment(comment);
    items.push(last);
    proof {
        assert(views(items@) =~= attach_last::<T>(views(before), comment@));
    }
}

pub fn classify_value_part_for_concat(part: &ValuePart) -> (res: Option<ConcatKind>)
    ensures
        res == classify_part(part@),
{
    match part {
        ValuePart::Object(_) => Some(ConcatKind::Object),
        ValuePart::Array(_) => Some(ConcatKind::Array),
        ValuePart::Atom(Atom::Substitution(_)) => None,
        ValuePart::Atom(_) => Some(ConcatKind::Simple),
    }
}

impl Parser {
    /// Consumes the separator after an item: commas, line breaks and comments.
    pub fn consume_body_separator<T: BodyItem>(&mut self, items: &mut Vec<T>, comma_kind: ErrorKind) -> (res: Result<EntrySeparator, ParseError>)
        requires
            old(self).wf(),
            old(items)@.len() > 0,
        ensures
            final(self).wf(),
            final(self).input@ == old(self).input@,
            old(self).p() <= final(self).p(),
            match body_separator::<T>(old(self).s(), old(self).p(), SeparatorState::Start, 0, views(old(items)@), comma_kind) {
                Ok((sep, q, its)) => res == Ok::<EntrySeparator, ParseError>(sep) && final(self).p() == q && views(final(items)@) == its,
                Err(e) => res matches Err(r) && r@ == e,
            },
    {
        let ghost s = self.s();
        let ghost p0 = self.p();
        let ghost target = body_separator::<T>(s, p0, SeparatorState::Start, 0, views(items@), comma_kind);
        let mut state = SeparatorState::Start;
        let mut newline_count: usize = 0;
        loop
            invariant
                self.wf(),
                self.input@ == s,
                s == old(self).input@,
                p0 == old(self).p(),
                p0 <= self.p(),
                items@.len() > 0,
                newline_count <= self.p(),
                target == body_separator::<T>(old(self).s(), old(self).p(), SeparatorState::Start, 0, views(old(items)@), comma_kind),
                body_separator::<T>(s, self.p(), state, newline_count as nat, views(items@), comma_kind) == target,
            decreases s.len() - self.pos,
        {
            let ghost q = self.p();
            let ws = self.consume_inline_whitespace();
            proof {
                lemma_inline_ws_end(s, q);
            }
            if self.peek_char() == Some(',') {
                if state != SeparatorState::Start {
                    return Err(self.error(comma_kind));
                }
                self.pos = self.pos + 1;
                newline_count = 0;
                state = SeparatorState::SawComma;
                continue;
            }
            if self.starts_comment() {
                let ghost q1 = self.p();
                proof {
                    lemma_comment_end(s, q1);
                }
                let comment = self.consume_comment_text();
                if state == SeparatorState::SawComma {
                    let mut text = ws;
                    crate::text::push_chars(&mut text, &comment);
                    attach_to_last(items, TrailingComment { text });
                } else {
                    let ghost before = items@;
                    items.push(T::comment(StandaloneComment { text: comment, leading_blank_line: newline_count > 1 }));
                    proof {
                        lemma_views_push(before, items@.last());
                    }
                    newline_count = 0;
                }
                continue;
            }
            if self.consume_newline() {
                newline_count = newline_count + 1;
                state = if state == SeparatorState::SawComma || state == SeparatorState::SawCommaThenNewline {
                    SeparatorState::SawCommaThenNewline
                } else {
                    SeparatorState::SawNewline
                };
                continue;
            }
            return Ok(EntrySeparator {
                had_separator: state != SeparatorState::Start,
                leading_blank_line: newline_count > 1,
            });
        }
    }

    /// Consumes standalone comments, each after layout, adding them to `items`.
    pub fn collect_standalone_comments<T: BodyItem>(&mut self, items: &mut Vec<T>, leading_blank_line: bool) -> (res: bool)
        requires
            old(self).wf(),
        ensures
            final(self).wf(),
            final(self).input@ == old(self).input@,
            old(self).p() <= final(self).p(),
            final(items)@.len() >= old(items)@.len(),
            ({
                let (q, its, blank) = collect_comments::<T>(old(self).s(), old(self).p(), views(old(items)@), leading_blank_line);
                final(self).p() == q && views(final(items)@) == its && res == blank
            }),
    {
        let ghost s = self.s();
        let ghost target = collect_comments::<T>(s, self.p(), views(items@), leading_blank_line);
        let mut blank = leading_blank_line;
        loop
            invariant
                self.wf(),
                self.input@ == s,
                s == old(self).input@,
                old(self).p() <= self.p(),
                items@.len() >= old(items)@.len(),
                target == collect_comments::<T>(old(self).s(), old(self).p(), views(old(items)@), leading_blank_line),
                collect_comments::<T>(s, self.p(), views(items@), blank) == target,
            decreases s.len() - self.pos,
        {
            let ghost q = self.p();
            proof {
                lemma_layout(s, q);
            }
            let count = self.consume_layout_without_comments();
            blank = blank || count > 1;
            if !self.starts_comment() {
                return blank;
            }
            let ghost q1 = self.p();
            proof {
                lemma_comment_end(s, q1);
            }
            let text = self.consume_comment_text();
            let ghost before = items@;
            items.push(T::comment(StandaloneComment { text, leading_blank_line: blank }));
            proof {
                lemma_views_push(before, items@.last());
            }
            blank = false;
        }
    }

    /// Consumes a comment on the current line, with the whitespace before it.
    pub fn consume_inline_comment_suffix(&mut self) -> (res: Option<TrailingComment>)
        requires
            old(self).wf(),
        ensures
            final(self).wf(),
            final(self).input@ == old(self).input@,
            old(self).p() <= final(self).p(),
            ({
                let (c, q) = inline_comment_suffix(old(self).s(), old(self).p());
                final(self).p() == q && match c {
                    Some(t) => res matches Some(r) && r@ == t,
                    None => res is None,
                }
            }),
    {
        let before = self.pos;
        let ws = self.consume_inline_whitespace();
        if self.starts_comment() {
            proof {
                lemma_comment_end(self.s(), self.p());
            }
            let comment = self.consume_comment_text();
            let mut text = ws;
            crate::text::push_chars(&mut text, &comment);
            return Some(TrailingComment { text });
        }
        self.pos = before;
        None
    }

    pub fn can_start_value_part(&self) -> (res: bool)
        requires
            self.wf(),
        ensures
            res == can_start_value_part(self.s(), self.p()),
    {
        self.peek_char() == Some('{') || self.peek_char() == Some('[') || self.peek_char() == Some('"')
            || self.starts_with("${") || self.can_start_simple_atom()
    }

    pub fn is_value_terminator(&self) -> (res: bool)
        requires
            self.wf(),
        ensures
            res == is_value_terminator(self.s(), self.p()),
    {
        let c = self.peek_char();
        c == Some('}') || c == Some(']') || c == Some(',') || c.is_none()
    }

    pub fn is_object_end(&self, terminator: Option<char>) -> (res: bool)
        requires
            self.wf(),
        ensures
            res == is_object_end(self.s(), self.p(), terminator),
    {
        match terminator {
            Some(ch) => self.peek_char() == Some(ch),
            None => self.is_eof(),
        }
    }

    pub fn starts_include_statement(&self) -> (res: bool)
        requires
            self.wf(),
        ensures
            res == starts_include_statement(self.s(), self.p()),
    {
        self.starts_with("include") && self.is_boundary_after_keyword(Token::IncludeKeyword)
    }

    /// Reads a keyword, a number or unquoted text.
    pub fn parse_simple_atom(&mut self) -> (res: Result<Atom, ParseError>)
        requires
            old(self).wf(),
        ensures
            final(self).wf(),
            final(self).input@ == old(self).input@,
            agrees(res, final(self).p(), parse_simple_atom(old(self).s(), old(self).p())),
            res is Ok ==> final(self).p() > old(self).p(),
    {
        if let Some(keyword) = self.match_keyword_atom() {
            let text = keyword_text(keyword);
            proof {
                lemma_keyword_text_len(keyword);
            }
            let n = text.unicode_len();
            self.pos = self.pos + n;
            return Ok(
                match keyword {
                    KeywordAtom::Null => Atom::Null,
                    _ => Atom::Boolean(chars_of(text)),
                },
            );
        }
        if let Some(number) = self.try_parse_number(false) {
            return Ok(Atom::Number(number));
        }
        let text = self.parse_unquoted(false)?;
        Ok(Atom::Unquoted(text))
    }

    /// Checks that the parts of a concatenation that have a kind all have the same kind.
    pub fn validate_concat_items(&self, items: &Vec<ConcatItem>) -> (res: Result<(), ParseError>)
        requires
            self.wf(),
        ensures
            concat_items_valid(views(items@)) ==> res is Ok,
            !concat_items_valid(views(items@)) ==> (res matches Err(e) && e@ == spec_error_at(
                self.s(),
                self.p(),
                ErrorKind::MixedConcatenation,
            )),
    {
        let ghost v = views(items@);
        let mut concat_kind: Option<ConcatKind> = None;
        let mut i: usize = 0;
        while i < items.len()
            invariant
                self.wf(),
                i <= items@.len(),
                v == views(items@),
                concat_kind is None ==> forall|j: int| 0 <= j < i ==> classify_part(#[trigger] v[j].part) is None,
                concat_kind matches Some(k) ==> (exists|j: int| 0 <= j < i && classify_part(#[trigger] v[j].part) == Some(k)),
                concat_kind matches Some(k) ==> forall|j: int|
                    0 <= j < i && classify_part(#[trigger] v[j].part) is Some ==> classify_part(v[j].part) == Some(k),
            decreases items@.len() - i,
        {
            let kind = classify_value_part_for_concat(&items[i].part);
            assert(v[i as int] == items@[i as int]@);
            match kind {
                None => {},
                Some(k) => match concat_kind {
                    Some(existing) => {
                        if existing != k {
                            proof {
                                let j = choose|j: int| 0 <= j < i && classify_part(#[trigger] v[j].part) == Some(existing);
                                assert(classify_part(v[i as int].part) != classify_part(v[j].part));
                            }
                            return Err(self.error(ErrorKind::MixedConcatenation));
                        }
                    },
                    None => {
                        concat_kind = Some(k);
                    },
                },
            }
            i = i + 1;
        }
        proof {
            assert forall|a: int, b: int|
                0 <= a < v.len() && 0 <= b < v.len() && classify_part(v[a].part) is Some
                    && classify_part(v[b].part) is Some implies classify_part(#[trigger] v[a].part)
                == classify_part(#[trigger] v[b].part) by {
                assert(classify_part(v[a].part) == concat_kind);
                assert(classify_part(v[b].part) == concat_kind);
            }
        }
        Ok(())
    }
}


impl Parser {
    /// Reads `file(...)`, `url(...)` or `classpath(...)`.
    pub fn parse_include_function(&mut self, kind: Token) -> (res: Result<Include, ParseError>)
        requires
            old(self).wf(),
            kind == Token::File || kind == Token::Url || kind == Token::Classpath,
        ensures
            final(self).wf(),
            final(self).input@ == old(self).input@,
            agrees(res, final(self).p(), parse_include_function(old(self).s(), old(self).p(), kind)),
            res is Ok ==> final(self).p() > old(self).p(),
    {
        self.expect_keyword(kind)?;
        self.skip_ws_comments_newlines();
        self.expect_char('(')?;
        self.skip_ws_comments_newlines();
        let path = self.parse_string_literal()?;
        self.skip_ws_comments_newlines();
        self.expect_char(')')?;
        Ok(
            match kind {
                Token::File => Include::File(path),
                Token::Url => Include::Url(path),
                _ => Include::Classpath(path),
            },
        )
    }

    /// Reads the target of an include statement.
    pub fn parse_include_target(&mut self) -> (res: Result<Include, ParseError>)
        requires
            old(self).wf(),
        ensures
            final(self).wf(),
            final(self).input@ == old(self).input@,
            agrees(res, final(self).p(), parse_include_target(old(self).s(), old(self).p())),
            res is Ok ==> final(self).p() > old(self).p(),
        decreases old(self).input@.len() - old(self).pos,
    {
        let ghost s = self.s();
        let ghost p0 = self.p();
        if self.starts_with("required") && self.is_boundary_after_keyword(Token::Required) {
            proof {
                reveal_strlit("required");
            }
            self.expect_keyword(Token::Required)?;
            self.skip_ws_comments_newlines();
            self.expect_char('(')?;
            self.skip_ws_comments_newlines();
            proof {
                crate::scan::lemma_skip_layout_and_comments(s, self.p());
            }
            let inner = self.parse_include_target()?;
            self.skip_ws_comments_newlines();
            self.expect_char(')')?;
            if let Include::Required(_) = inner {
                return Err(self.error(ErrorKind::NestedRequired));
            }
            return Ok(Include::Required(Box::new(inner)));
        }
        if self.starts_with("file") && self.is_boundary_after_keyword(Token::File) {
            return self.parse_include_function(Token::File);
        }
        if self.starts_with("url") && self.is_boundary_after_keyword(Token::Url) {
            return self.parse_include_function(Token::Url);
        }
        if self.starts_with("classpath") && self.is_boundary_after_keyword(Token::Classpath) {
            return self.parse_include_function(Token::Classpath);
        }
        if self.peek_char() == Some('"') {
            return Ok(Include::Bare(self.parse_string_literal()?));
        }
        Err(self.error(ErrorKind::ExpectedIncludeTarget))
    }

    /// Reads an include statement.
    pub fn parse_include(&mut self) -> (res: Result<Include, ParseError>)
        requires
            old(self).wf(),
        ensures
            final(self).wf(),
            final(self).input@ == old(self).input@,
            agrees(res, final(self).p(), parse_include(old(self).s(), old(self).p())),
            res is Ok ==> final(self).p() > old(self).p(),
    {
        self.expect_keyword(Token::IncludeKeyword)?;
        if !self.consume_ws_or_comment_separator() {
            return Err(self.error(ErrorKind::ExpectedWhitespaceAfterInclude));
        }
        self.skip_ws_comments_newlines();
        self.parse_include_target()
    }
}


impl Parser {
    /// Reads a value: one part, or parts on one line that form a concatenation.
    pub fn parse_value(&mut self) -> (res: Result<Value, ParseError>)
        requires
            old(self).wf(),
        ensures
            final(self).wf(),
            final(self).input@ == old(self).input@,
            agrees(res, final(self).p(), parse_value(old(self).s(), old(self).p())),
            res is Ok ==> final(self).p() > old(self).p(),
        decreases old(self).input@.len() - old(self).pos, 3int,
    {
        let ghost s = self.s();
        let ghost p0 = self.p();
        let first = self.parse_value_part()?;
        let mut items: Vec<ConcatItem> = Vec::new();
        items.push(ConcatItem { separator: Vec::new(), part: first });
        proof {
            assert(views(items@) =~= seq![SConcatItem { separator: Seq::empty(), part: items@[0].part@ }]);
        }
        loop
            invariant
                self.wf(),
                self.input@ == s,
                s == old(self).input@,
                p0 == old(self).p(),
                p0 < self.p(),
                items@.len() >= 1,
                value_rest(s, self.p(), views(items@)) == parse_value(s, p0),
            ensures
                self.wf(),
                self.input@ == s,
                p0 < self.p(),
                items@.len() >= 1,
                finish_value(s, self.p(), views(items@)) == parse_value(s, p0),
            decreases s.len() - self.pos,
        {
            let before = self.pos;
            proof {
                lemma_inline_ws_end(s, before as int);
            }
            let separator = self.consume_inline_whitespace();
            if self.starts_comment() || self.at_newline() || self.is_value_terminator() {
                self.pos = before;
                break;
            }
            if !self.can_start_value_part() {
                self.pos = before;
                break;
            }
            let part = self.parse_value_part()?;
            let ghost old_items = items@;
            items.push(ConcatItem { separator, part });
            proof {
                lemma_views_push(old_items, items@.last());
            }
        }
        if items.len() == 1 {
            let item = items.pop().unwrap();
            Ok(Value::Single(item.part))
        } else {
            self.validate_concat_items(&items)?;
            let ghost v = Value::Concat(items)@;
            proof {
                assert(Value::Concat(items)@ == crate::ast::SValue::Concat(views(items@))) by {
                    if let crate::ast::SValue::Concat(x) = v {
                        assert(x =~= views(items@));
                    }
                }
            }
            Ok(Value::Concat(items))
        }
    }

    /// Reads one part of a value.
    pub fn parse_value_part(&mut self) -> (res: Result<ValuePart, ParseError>)
        requires
            old(self).wf(),
        ensures
            final(self).wf(),
            final(self).input@ == old(self).input@,
            agrees(res, final(self).p(), parse_value_part(old(self).s(), old(self).p())),
            res is Ok ==> final(self).p() > old(self).p(),
        decreases old(self).input@.len() - old(self).pos, 2int,
    {
        match self.peek_char() {
            Some(c) => {
                if c == '{' {
                    Ok(ValuePart::Object(self.parse_object_entries(Some('}'))?))
                } else if c == '[' {
                    Ok(ValuePart::Array(self.parse_array_items()?))
                } else if c == '"' {
                    Ok(ValuePart::Atom(Atom::String(self.parse_string_literal()?)))
                } else if c == '$' && self.starts_with("${") {
                    Ok(ValuePart::Atom(Atom::Substitution(self.parse_substitution()?)))
                } else {
                    Ok(ValuePart::Atom(self.parse_simple_atom()?))
                }
            },
            None => Err(self.error(ErrorKind::ExpectedValue)),
        }
    }

    /// Reads the entries of an object: a braced object where the terminator is `}`, root
    /// entries that run to the end of the input where there is none.
    pub fn parse_object_entries(&mut self, terminator: Option<char>) -> (res: Result<ObjectValue, ParseError>)
        requires
            old(self).wf(),
            terminator == None::<char> || terminator == Some('}'),
        ensures
            final(self).wf(),
            final(self).input@ == old(self).input@,
            agrees(
                res,
                final(self).p(),
                if terminator is None {
                    parse_root_object(old(self).s(), old(self).p())
                } else {
                    parse_braced_object(old(self).s(), old(self).p())
                },
            ),
            res is Ok && terminator is Some ==> final(self).p() > old(self).p(),
        decreases old(self).input@.len() - old(self).pos, if terminator is None { 7int } else { 1int },
    {
        let ghost s = self.s();
        let ghost p0 = self.p();
        let ghost target = if terminator is None { parse_root_object(s, p0) } else { parse_braced_object(s, p0) };
        if terminator.is_some() {
            self.expect_char('{')?;
        }
        let content_start = self.pos;
        let mut entries: Vec<Entry> = Vec::new();
        let count = self.consume_layout_without_comments();
        let mut leading_blank_line = count > 1;
        proof {
            assert(views(entries@) =~= Seq::<crate::ast::SEntry>::empty());
        }
        loop
            invariant
                self.wf(),
                self.input@ == s,
                s == old(self).input@,
                p0 == old(self).p(),
                terminator == None::<char> || terminator == Some('}'),
                p0 <= content_start <= self.p(),
                terminator is Some ==> p0 < content_start,
                target == (if terminator is None { parse_root_object(s, p0) } else { parse_braced_object(s, p0) }),
                object_loop(s, terminator, content_start as int, self.p(), views(entries@), leading_blank_line)
                    == target,
            ensures
                self.wf(),
                self.input@ == s,
                p0 <= content_start <= self.p(),
                terminator is Some ==> p0 < content_start,
                finish_object(s, terminator, content_start as int, self.p(), views(entries@)) == target,
            decreases s.len() - self.pos,
        {
            let ghost q = self.p();
            leading_blank_line = self.collect_standalone_comments(&mut entries, leading_blank_line);
            proof {
                lemma_collect_comments::<Entry>(s, q, views(entries@), leading_blank_line);
            }
            if terminator.is_none() && self.peek_char() == Some('}') {
                return Err(self.error(ErrorKind::UnexpectedClosingBrace));
            }
            if self.is_object_end(terminator) {
                break;
            }
            let mut entry = self.parse_entry()?;
            entry.set_leading_blank_line(leading_blank_line);
            let ghost before = entries@;
            entries.push(entry);
            proof {
                lemma_views_push(before, entries@.last());
            }
            if let Some(comment) = self.consume_inline_comment_suffix() {
                attach_to_last(&mut entries, comment);
            }
            if self.is_object_end(terminator) {
                break;
            }
            let separator = self.consume_body_separator(&mut entries, ErrorKind::UnexpectedCommaInObject)?;
            leading_blank_line = separator.leading_blank_line;
            if terminator.is_none() && self.peek_char() == Some('}') {
                return Err(self.error(ErrorKind::UnexpectedClosingBrace));
            }
            if self.is_object_end(terminator) {
                break;
            }
            if !separator.had_separator {
                return Err(self.error(ErrorKind::MissingObjectSeparator));
            }
        }
        if terminator.is_some() {
            self.expect_char('}')?;
        }
        let prefer_multiline = contains_newline(&self.input.as_slice()[content_start..self.pos]);
        let object = ObjectValue { entries, prefer_multiline };
        proof {
            assert(object@.entries =~= views(object.entries@));
        }
        Ok(object)
    }

    /// Reads an array.
    pub fn parse_array_items(&mut self) -> (res: Result<ArrayValue, ParseError>)
        requires
            old(self).wf(),
        ensures
            final(self).wf(),
            final(self).input@ == old(self).input@,
            agrees(res, final(self).p(), parse_array(old(self).s(), old(self).p())),
            res is Ok ==> final(self).p() > old(self).p(),
        decreases old(self).input@.len() - old(self).pos, 1int,
    {
        let ghost s = self.s();
        let ghost p0 = self.p();
        self.expect_char('[')?;
        let content_start = self.pos;
        let mut items: Vec<ArrayItem> = Vec::new();
        let count = self.consume_layout_without_comments();
        let mut leading_blank_line = count > 1;
        proof {
            assert(views(items@) =~= Seq::<crate::ast::SArrayItem>::empty());
        }
        loop
            invariant
                self.wf(),
                self.input@ == s,
                s == old(self).input@,
                p0 == old(self).p(),
                p0 < content_start <= self.p(),
                array_loop(s, content_start as int, self.p(), views(items@), leading_blank_line)
                    == parse_array(s, p0),
            ensures
                self.wf(),
                self.input@ == s,
                p0 < content_start <= self.p(),
                finish_array(s, content_start as int, self.p(), views(items@)) == parse_array(s, p0),
            decreases s.len() - self.pos,
        {
            let ghost q = self.p();
            leading_blank_line = self.collect_standalone_comments(&mut items, leading_blank_line);
            proof {
                lemma_collect_comments::<ArrayItem>(s, q, views(items@), leading_blank_line);
            }
            if self.peek_char() == Some(']') {
                break;
            }
            let value = self.parse_value()?;
            let ghost before = items@;
            items.push(ArrayItem::Value { leading_blank_line, value, trailing_comment: None });
            proof {
                lemma_views_push(before, items@.last());
            }
            if let Some(comment) = self.consume_inline_comment_suffix() {
                attach_to_last(&mut items, comment);
            }
            if self.peek_char() == Some(']') {
                break;
            }
            let separator = self.consume_body_separator(&mut items, ErrorKind::UnexpectedCommaInArray)?;
            leading_blank_line = separator.leading_blank_line;
            if self.peek_char() == Some(']') {
                break;
            }
            if !separator.had_separator {
                return Err(self.error(ErrorKind::MissingArraySeparator));
            }
        }
        self.expect_char(']')?;
        let prefer_multiline = contains_newline(&self.input.as_slice()[content_start..self.pos]);
        let array = ArrayValue { items, prefer_multiline };
        proof {
            assert(array@.items =~= views(array.items@));
        }
        Ok(array)
    }

    /// Reads an entry: an include statement or a field.
    pub fn parse_entry(&mut self) -> (res: Result<Entry, ParseError>)
        requires
            old(self).wf(),
        ensures
            final(self).wf(),
            final(self).input@ == old(self).input@,
            agrees(res, final(self).p(), parse_entry(old(self).s(), old(self).p())),
            res is Ok ==> final(self).p() > old(self).p(),
        decreases old(self).input@.len() - old(self).pos, 5int,
    {
        if self.starts_include_statement() {
            let directive = self.parse_include()?;
            Ok(Entry::Include(IncludeStmt { leading_blank_line: false, directive, trailing_comment: None }))
        } else {
            Ok(Entry::Field(self.parse_field()?))
        }
    }

    /// Reads a field: a path, an operator and a value.
    pub fn parse_field(&mut self) -> (res: Result<Field, ParseError>)
        requires
            old(self).wf(),
        ensures
            final(self).wf(),
            final(self).input@ == old(self).input@,
            agrees(res, final(self).p(), parse_field(old(self).s(), old(self).p())),
            res is Ok ==> final(self).p() > old(self).p(),
        decreases old(self).input@.len() - old(self).pos, 4int,
    {
        proof {
            reveal_strlit("+=");
            reveal_strlit("=");
            reveal_strlit(":");
        }
        let path = self.parse_path(PathMode::FieldKey)?;
        self.skip_ws_comments_newlines();
        let op = if self.starts_with("+=") {
            self.pos = self.pos + 2;
            FieldOp::Append
        } else if self.starts_with("=") || self.starts_with(":") {
            self.pos = self.pos + 1;
            FieldOp::Assign
        } else if self.peek_char() == Some('{') {
            FieldOp::Assign
        } else {
            return Err(self.error(ErrorKind::ExpectedFieldOperator));
        };
        if self.peek_char() != Some('{') || op == FieldOp::Append {
            self.skip_ws_comments_newlines();
        }
        let value = self.parse_value()?;
        let field = Field { leading_blank_line: false, path, op, value, trailing_comment: None };
        Ok(field)
    }

    /// Reads a document.
    pub fn parse_document(&mut self) -> (res: Result<Document, ParseError>)
        requires
            old(self).wf(),
            old(self).pos == 0,
        ensures
            final(self).wf(),
            final(self).input@ == old(self).input@,
            res is Ok ==> final(self).p() == final(self).input@.len(),
            match parse_document(old(self).s()) {
                Ok(d) => res matches Ok(r) && r@ == d,
                Err(e) => res matches Err(r) && r@ == e,
            },
    {
        self.skip_layout_without_comments();
        let root = match self.peek_char() {
            Some(c) => {
                if c == '{' {
                    Root::Object { object: self.parse_object_entries(Some('}'))?, braced: true }
                } else if c == '[' {
                    Root::Array(self.parse_array_items()?)
                } else {
                    Root::Object { object: self.parse_object_entries(None)?, braced: false }
                }
            },
            None => {
                let object = ObjectValue { entries: Vec::new(), prefer_multiline: false };
                proof {
                    assert(object@.entries =~= Seq::<crate::ast::SEntry>::empty());
                }
                Root::Object { object, braced: false }
            },
        };
        self.skip_layout_without_comments();
        if !self.is_eof() {
            return Err(self.error(ErrorKind::UnexpectedTrailingContent));
        }
        Ok(Document { root })
    }
}

} // verus!
